//! Decodes an instrumented module into a form the interpreter can execute directly.
//!
//! The interpreter evaluates instructions as they were read; this module only adds what an
//! instruction sequence alone cannot express: where each branch lands. WebAssembly control flow
//! is structured, so each `block`, `loop` and `if` is annotated once, at decode time, with the
//! position of its matching `else` and `end`.
use crate::engine::operator::{Operator, same_operator, same_operators};
use crate::module::{
    self, Body, BodyView, GlobalView, Import, ImportView, Mode, ModeView, Module, ModuleView,
    Part, PartView, Segment, SegmentView, lemma_same_module, module_of, same_body, same_element,
    same_elements, same_globals, same_module, same_part, same_segment, same_segments,
};
use crate::state::Value;
use crate::text;
use crate::validate::{ENTRY_POINT, HOST_CHARGE, HOST_INPUT, HOST_MODULE, HOST_OUTPUT};
use crate::wasm::{
    self, ExternalKind, FuncType, FuncTypeView, ImportType, ImportTypeView, Listing, ListingView,
    ValType, ValTypeView, is_text, same_listing,
};
use vstd::prelude::*;

verus! {

/// Ceiling on the number of locals in one function, after run-length expansion.
///
/// Locals are declared run-length encoded, so a tiny module can ask for billions of them. The
/// interpreter indexes locals directly, so the declaration is expanded, and therefore bounded.
pub const MAX_LOCALS_PER_FUNCTION: u32 = 50_000;

/// A host function the module imports.
#[derive(Debug, Clone, Copy, PartialEq, Eq, Structural)]
pub enum HostFunction {
    /// `input(ptr, len) -> len`: copy the work unit's input into linear memory.
    Input,
    /// `output(ptr, len)`: record the work unit's result.
    Output,
    /// `charge(instructions)`: the fuel meter and snapshot hook.
    Charge,
}

/// Where a structured control instruction's `else` and `end` are.
#[derive(Debug, Clone, Copy, PartialEq, Eq, Structural)]
pub struct Control {
    /// Index of the matching `end`.
    pub end: u32,
    /// Index of the matching `else`, for an `if` that has one.
    pub otherwise: Option<u32>,
}

/// A defined function, decoded.
#[derive(Debug, Clone)]
pub struct Function {
    /// Index into [`Image::types`].
    pub type_index: u32,
    /// One entry per local, run-length declarations already expanded. Parameters are *not*
    /// among them; the interpreter concatenates them at call time.
    pub local_types: Vec<ValType>,
    /// The function's instructions, with the trailing `end`.
    pub ops: Vec<Operator>,
    /// Aligned with [`ops`](Self::ops). Populated only at `block`, `loop` and `if`.
    pub control: Vec<Option<Control>>,
}

/// Linear memory as the module declares it.
#[derive(Debug, Clone, Copy, PartialEq, Eq, Structural)]
pub struct MemorySpec {
    /// Pages present at instantiation.
    pub initial_pages: u32,
    /// Declared ceiling.
    pub maximum_pages: u32,
}

/// A global, with its initial value already evaluated.
#[derive(Debug, Clone, Copy, PartialEq, Eq, Structural)]
pub struct GlobalSpec {
    /// Whether the module may write to it.
    pub mutable: bool,
    /// The value the initializer expression evaluates to.
    pub init: Value,
}

/// The function table, if the module has one.
#[derive(Debug, Clone, Copy, PartialEq, Eq, Structural)]
pub struct TableSpec {
    /// Entries present at instantiation.
    pub initial: u32,
    /// Declared ceiling, if any.
    pub maximum: Option<u32>,
}

/// An element segment: function indices destined for the table.
#[derive(Debug, Clone, PartialEq, Eq)]
pub enum ElementSegment {
    /// Copied into the table at instantiation.
    Active {
        /// Table offset the segment starts at.
        offset: u32,
        /// Function indices, in order.
        functions: Vec<u32>,
    },
    /// Available to `table.init` but not installed automatically.
    Passive {
        /// Function indices, in order.
        functions: Vec<u32>,
    },
    /// Present only to make function references valid; carries nothing.
    Declared,
}

/// An element segment, viewed.
pub enum ElementView {
    /// Copied into the table at instantiation.
    Active {
        /// Table offset the segment starts at.
        offset: u32,
        /// Function indices, in order.
        functions: Seq<u32>,
    },
    /// Available to `table.init` but not installed automatically.
    Passive {
        /// Function indices, in order.
        functions: Seq<u32>,
    },
    /// Carries nothing.
    Declared,
}

impl DeepView for ElementSegment {
    type V = ElementView;

    open spec fn deep_view(&self) -> ElementView {
        match *self {
            ElementSegment::Active { offset, functions } => ElementView::Active {
                offset,
                functions: functions@,
            },
            ElementSegment::Passive { functions } => ElementView::Passive {
                functions: functions@,
            },
            ElementSegment::Declared => ElementView::Declared,
        }
    }
}

/// A data segment: bytes destined for linear memory.
#[derive(Debug, Clone, PartialEq, Eq)]
pub enum DataSegment {
    /// Copied into memory at instantiation.
    Active {
        /// Byte offset the segment starts at.
        offset: u32,
        /// The bytes.
        bytes: Vec<u8>,
    },
    /// Available to `memory.init` but not installed automatically.
    Passive {
        /// The bytes.
        bytes: Vec<u8>,
    },
}

/// A data segment, viewed.
pub enum DataView {
    /// Copied into memory at instantiation.
    Active {
        /// Byte offset the segment starts at.
        offset: u32,
        /// The bytes.
        bytes: Seq<u8>,
    },
    /// Available to `memory.init` but not installed automatically.
    Passive {
        /// The bytes.
        bytes: Seq<u8>,
    },
}

impl DeepView for DataSegment {
    type V = DataView;

    open spec fn deep_view(&self) -> DataView {
        match *self {
            DataSegment::Active { offset, bytes } => DataView::Active { offset, bytes: bytes@ },
            DataSegment::Passive { bytes } => DataView::Passive { bytes: bytes@ },
        }
    }
}

impl DataSegment {
    /// The segment's bytes.
    pub open spec fn content(self) -> Seq<u8> {
        match self {
            DataSegment::Active { bytes, .. } => bytes@,
            DataSegment::Passive { bytes } => bytes@,
        }
    }
}

/// An instrumented module, decoded and ready to execute.
#[derive(Debug, Clone)]
pub struct Image {
    /// Function types, in type-section order.
    pub types: Vec<FuncType>,
    /// Type index for every function, imports first, then defined functions.
    pub func_types: Vec<u32>,
    /// Which host function each imported function index refers to.
    pub host_imports: Vec<HostFunction>,
    /// Defined functions, in code-section order. Function index is
    /// `host_imports.len() + position`.
    pub functions: Vec<Function>,
    /// Linear memory.
    pub memory: MemorySpec,
    /// Globals, in index order.
    pub globals: Vec<GlobalSpec>,
    /// The function table, if declared.
    pub table: Option<TableSpec>,
    /// Element segments, in order.
    pub elements: Vec<ElementSegment>,
    /// Data segments, in order.
    pub data: Vec<DataSegment>,
    /// Function index of the entry point.
    pub entry: u32,
    /// Function index of `charge`, which the interpreter intercepts rather than calls.
    pub charge: u32,
}

/// Why a module could not be decoded.
#[derive(Debug, Clone, PartialEq, Eq)]
pub enum ImageError {
    /// The module could not be parsed.
    Parse {
        /// The underlying parser message.
        detail: String,
    },
    /// An import outside Cairn's host interface.
    UnsupportedImport {
        /// The module the import named.
        module: String,
        /// The import's name.
        name: String,
    },
    /// The module declares no linear memory, or no maximum for it.
    BadMemory,
    /// The module does not export [`ENTRY_POINT`] as a function.
    NoEntryPoint,
    /// The module never imports `charge`, so it was not instrumented.
    NotInstrumented,
    /// An initializer expression was not a single constant.
    UnsupportedInitializer,
    /// A function declares more locals than [`MAX_LOCALS_PER_FUNCTION`].
    TooManyLocals {
        /// Position of the function in the code section.
        function: usize,
        /// The number of locals it asked for.
        declared: u64,
    },
    /// Structured control instructions did not nest correctly.
    UnbalancedControl {
        /// Position of the function in the code section.
        function: usize,
    },
    /// A function body appeared with no entry in the function section.
    BodyWithoutSignature {
        /// Position of the body in the code section.
        index: usize,
    },
}

/// Why a module could not be decoded, viewed.
pub enum ImageErrorView {
    /// The module could not be parsed.
    Parse(Seq<char>),
    /// An import outside Cairn's host interface.
    UnsupportedImport(Seq<char>, Seq<char>),
    /// The module declares no linear memory, or no maximum for it.
    BadMemory,
    /// The module does not export the entry point as a function.
    NoEntryPoint,
    /// The module never imports `charge`.
    NotInstrumented,
    /// An initializer expression was not a single constant.
    UnsupportedInitializer,
    /// A function declares too many locals.
    TooManyLocals(nat, nat),
    /// Structured control instructions did not nest correctly.
    UnbalancedControl(nat),
    /// A function body appeared with no entry in the function section.
    BodyWithoutSignature(nat),
}

impl View for ImageError {
    type V = ImageErrorView;

    open spec fn view(&self) -> ImageErrorView {
        match *self {
            ImageError::Parse { detail } => ImageErrorView::Parse(detail@),
            ImageError::UnsupportedImport { module, name } => ImageErrorView::UnsupportedImport(
                module@,
                name@,
            ),
            ImageError::BadMemory => ImageErrorView::BadMemory,
            ImageError::NoEntryPoint => ImageErrorView::NoEntryPoint,
            ImageError::NotInstrumented => ImageErrorView::NotInstrumented,
            ImageError::UnsupportedInitializer => ImageErrorView::UnsupportedInitializer,
            ImageError::TooManyLocals { function, declared } => ImageErrorView::TooManyLocals(
                function as nat,
                declared as nat,
            ),
            ImageError::UnbalancedControl { function } => ImageErrorView::UnbalancedControl(
                function as nat,
            ),
            ImageError::BodyWithoutSignature { index } => ImageErrorView::BodyWithoutSignature(
                index as nat,
            ),
        }
    }
}

impl ImageErrorView {
    /// The message a person reads.
    pub open spec fn message(self) -> Seq<char> {
        match self {
            ImageErrorView::Parse(detail) => "could not parse module: "@ + detail,
            ImageErrorView::UnsupportedImport(module, name) => "unsupported import `"@ + module
                + "::"@ + name + "`"@,
            ImageErrorView::BadMemory => "module declares no bounded linear memory"@,
            ImageErrorView::NoEntryPoint => "module does not export `cairn_run`"@,
            ImageErrorView::NotInstrumented => "module does not import `cairn::charge`, so it has not been through the instrumentation pass"@,
            ImageErrorView::UnsupportedInitializer => "initializer expression is not a single constant"@,
            ImageErrorView::TooManyLocals(function, declared) => "function "@
                + text::decimal_text(function) + " declares "@ + text::decimal_text(declared)
                + " locals, over the 50000 limit"@,
            ImageErrorView::UnbalancedControl(function) => "function "@ + text::decimal_text(
                function,
            ) + " has unbalanced control instructions"@,
            ImageErrorView::BodyWithoutSignature(index) => "function body "@ + text::decimal_text(
                index,
            ) + " has no entry in the function section"@,
        }
    }
}

impl ImageError {
    /// Render the error.
    #[must_use]
    pub fn to_string(&self) -> (r: String)
        ensures
            r@ == self@.message(),
    {
        match self {
            ImageError::Parse { detail } => text::join2(
                "could not parse module: ",
                detail.as_str(),
            ),
            ImageError::UnsupportedImport { module, name } => text::join5(
                "unsupported import `",
                module.as_str(),
                "::",
                name.as_str(),
                "`",
            ),
            ImageError::BadMemory => String::from_str("module declares no bounded linear memory"),
            ImageError::NoEntryPoint => String::from_str("module does not export `cairn_run`"),
            ImageError::NotInstrumented => String::from_str(
                "module does not import `cairn::charge`, so it has not been through the instrumentation pass",
            ),
            ImageError::UnsupportedInitializer => String::from_str(
                "initializer expression is not a single constant",
            ),
            ImageError::TooManyLocals { function, declared } => {
                let f = text::decimal(*function as u64);
                let d = text::decimal(*declared);
                text::join5(
                    "function ",
                    f.as_str(),
                    " declares ",
                    d.as_str(),
                    " locals, over the 50000 limit",
                )
            },
            ImageError::UnbalancedControl { function } => {
                let f = text::decimal(*function as u64);
                text::join3("function ", f.as_str(), " has unbalanced control instructions")
            },
            ImageError::BodyWithoutSignature { index } => {
                let i = text::decimal(*index as u64);
                text::join3("function body ", i.as_str(), " has no entry in the function section")
            },
        }
    }
}

/// A number as a `u32`, clamped to the largest.
pub open spec fn clamped(n: nat) -> u32 {
    if n <= u32::MAX {
        n as u32
    } else {
        u32::MAX
    }
}

fn clamp(n: u64) -> (r: u32)
    ensures
        r == clamped(n as nat),
{
    if n <= u32::MAX as u64 {
        n as u32
    } else {
        u32::MAX
    }
}

/// What an instruction means to the nesting of constructs.
#[derive(Clone, Copy, PartialEq, Eq, Structural)]
pub enum Bracket {
    /// It opens a construct.
    Open,
    /// It separates the branches of the innermost construct.
    Middle,
    /// It closes the innermost construct, or the function.
    Close,
    /// Nothing.
    Neither,
}

/// What an instruction means to the nesting of constructs.
pub open spec fn bracket(op: Operator) -> Bracket {
    match op {
        Operator::Block { .. } | Operator::Loop { .. } | Operator::If { .. } => Bracket::Open,
        Operator::Else => Bracket::Middle,
        Operator::End => Bracket::Close,
        _ => Bracket::Neither,
    }
}

fn bracket_of(op: &Operator) -> (r: Bracket)
    ensures
        r == bracket(*op),
{
    match op {
        Operator::Block { .. } | Operator::Loop { .. } | Operator::If { .. } => Bracket::Open,
        Operator::Else => Bracket::Middle,
        Operator::End => Bracket::Close,
        _ => Bracket::Neither,
    }
}

/// The annotations made so far, and the constructs still open, innermost last.
pub struct Nesting {
    /// One annotation per instruction.
    pub control: Seq<Option<Control>>,
    /// Positions of the open constructs.
    pub open: Seq<nat>,
}

/// Reading one more instruction. An `else` outside any construct is unbalanced; an `end` outside
/// any closes the function.
pub open spec fn nest(s: Nesting, i: nat, b: Bracket) -> Option<Nesting> {
    match b {
        Bracket::Open => Some(
            Nesting {
                control: s.control.update(
                    i as int,
                    Some(Control { end: u32::MAX, otherwise: None }),
                ),
                open: s.open.push(i),
            },
        ),
        Bracket::Middle => if s.open.len() == 0 {
            None
        } else {
            let top = s.open.last() as int;
            Some(
                Nesting {
                    control: s.control.update(
                        top,
                        Some(Control { otherwise: Some(clamped(i)), ..s.control[top]->0 }),
                    ),
                    open: s.open,
                },
            )
        },
        Bracket::Close => if s.open.len() == 0 {
            Some(s)
        } else {
            let top = s.open.last() as int;
            Some(
                Nesting {
                    control: s.control.update(
                        top,
                        Some(Control { end: clamped(i), ..s.control[top]->0 }),
                    ),
                    open: s.open.drop_last(),
                },
            )
        },
        Bracket::Neither => Some(s),
    }
}

/// The annotations after reading the first `n` instructions.
pub open spec fn nested(ops: Seq<Operator>, n: nat) -> Option<Nesting>
    decreases n,
{
    if n == 0 {
        Some(
            Nesting { control: Seq::new(ops.len(), |i: int| None::<Control>), open: Seq::empty() },
        )
    } else {
        match nested(ops, (n - 1) as nat) {
            Some(s) => nest(s, (n - 1) as nat, bracket(ops[n - 1])),
            None => None,
        }
    }
}

/// Where every construct's `else` and `end` are, or nothing if constructs do not nest.
pub open spec fn resolved(ops: Seq<Operator>) -> Option<Seq<Option<Control>>> {
    match nested(ops, ops.len()) {
        Some(s) => if s.open.len() == 0 {
            Some(s.control)
        } else {
            None
        },
        None => None,
    }
}

/// An open construct is annotated, and lies before what has been read.
spec fn nesting_wf(s: Nesting, len: nat, n: nat) -> bool {
    &&& s.control.len() == len
    &&& forall|k: int|
        0 <= k < s.open.len() ==> (#[trigger] s.open[k]) < n && s.control[s.open[k] as int] is Some
}

proof fn lemma_nested_wf(ops: Seq<Operator>, n: nat)
    requires
        n <= ops.len(),
        nested(ops, n) is Some,
    ensures
        nesting_wf(nested(ops, n)->0, ops.len(), n),
    decreases n,
{
    if n > 0 {
        lemma_nested_wf(ops, (n - 1) as nat);
        let s = nested(ops, (n - 1) as nat)->0;
        let t = nested(ops, n)->0;
        if bracket(ops[n - 1]) is Close && s.open.len() > 0 {
            assert forall|k: int| 0 <= k < t.open.len() implies (#[trigger] t.open[k]) < n
                && t.control[t.open[k] as int] is Some by {
                assert(t.open[k] == s.open[k]);
            }
        }
        if bracket(ops[n - 1]) is Open {
            assert forall|k: int| 0 <= k < t.open.len() implies (#[trigger] t.open[k]) < n
                && t.control[t.open[k] as int] is Some by {
                if k < s.open.len() {
                    assert(t.open[k] == s.open[k]);
                }
            }
        }
    }
}

proof fn lemma_same_nested(a: Seq<Operator>, b: Seq<Operator>, n: nat)
    requires
        same_operators(a, b),
        n <= a.len(),
    ensures
        nested(a, n) == nested(b, n),
    decreases n,
{
    if n > 0 {
        lemma_same_nested(a, b, (n - 1) as nat);
        assert(same_operator(a[n - 1], b[n - 1]));
    } else {
        assert(Seq::new(a.len(), |i: int| None::<Control>) =~= Seq::new(
            b.len(),
            |i: int| None::<Control>,
        ));
    }
}

/// Annotate every structured control instruction with the position of its `else` and `end`.
///
/// The function's own trailing `end` closes no explicit block and is left unannotated; the
/// interpreter treats returning past it as returning from the function.
pub fn resolve_control(ops: &Vec<Operator>, function: usize) -> (r: Result<
    Vec<Option<Control>>,
    ImageError,
>)
    ensures
        match (r, resolved(ops@)) {
            (Ok(c), Some(s)) => c@ == s,
            (Err(e), None) => e == (ImageError::UnbalancedControl { function }),
            _ => false,
        },
{
    let mut control: Vec<Option<Control>> = Vec::new();
    let mut i: usize = 0;
    while i < ops.len()
        invariant
            i <= ops@.len(),
            control@.len() == i,
            forall|k: int| 0 <= k < i ==> #[trigger] control@[k] is None,
        decreases ops@.len() - i,
    {
        control.push(None);
        i = i + 1;
    }
    let mut open: Vec<usize> = Vec::new();
    let mut i: usize = 0;
    proof {
        let s = nested(ops@, 0)->0;
        assert(control@ =~= s.control);
        assert(open@.map_values(|p: usize| p as nat) =~= s.open);
    }
    while i < ops.len()
        invariant
            i <= ops@.len(),
            nested(ops@, i as nat) matches Some(s) && s.control == control@ && s.open
                == open@.map_values(|p: usize| p as nat),
        decreases ops@.len() - i,
    {
        let ghost s = nested(ops@, i as nat)->0;
        let ghost before = open@;
        proof {
            lemma_nested_wf(ops@, i as nat);
            assert(before.map_values(|p: usize| p as nat).len() == before.len());
            assert(forall|k: int|
                0 <= k < before.len() ==> s.open[k] == (#[trigger] before[k]) as nat);
        }
        match bracket_of(&ops[i]) {
            Bracket::Open => {
                control.set(i, Some(Control { end: u32::MAX, otherwise: None }));
                open.push(i);
                assert(open@.map_values(|p: usize| p as nat) =~= s.open.push(i as nat));
            },
            Bracket::Middle => {
                if open.len() == 0 {
                    proof {
                        lemma_nested_none(ops@, (i + 1) as nat, ops@.len());
                    }
                    return Err(ImageError::UnbalancedControl { function });
                }
                let top: usize = open[open.len() - 1];
                assert(s.open[s.open.len() - 1] == top);
                match control[top] {
                    Some(c) => control.set(
                        top,
                        Some(Control { end: c.end, otherwise: Some(clamp(i as u64)) }),
                    ),
                    None => {
                        assert(false);
                    },
                }
            },
            Bracket::Close => {
                if let Some(top) = open.pop() {
                    assert(s.open[s.open.len() - 1] == top);
                    match control[top] {
                        Some(c) => control.set(
                            top,
                            Some(Control { end: clamp(i as u64), otherwise: c.otherwise }),
                        ),
                        None => {
                            assert(false);
                        },
                    }
                    assert(open@.map_values(|p: usize| p as nat) =~= s.open.drop_last());
                }
            },
            Bracket::Neither => {},
        }
        i = i + 1;
    }
    if open.len() != 0 {
        return Err(ImageError::UnbalancedControl { function });
    }
    Ok(control)
}

/// Once instructions do not nest, more of them do not either.
proof fn lemma_nested_none(ops: Seq<Operator>, n: nat, m: nat)
    requires
        n <= m,
        nested(ops, n) is None,
    ensures
        nested(ops, m) is None,
    decreases m,
{
    if n < m {
        lemma_nested_none(ops, n, (m - 1) as nat);
    }
}

/// What a constant initializer evaluates to.
///
/// Only the four `*.const` instructions are reachable: extended constant expressions are
/// excluded, and there is no imported global to read.
pub open spec fn constant_of(init: ListingView) -> Result<Value, ImageErrorView> {
    let ListingView { ops, error, .. } = init;
    if ops.len() == 0 {
        Err(ImageErrorView::Parse(error))
    } else {
        match constant(ops[0]) {
            None => Err(ImageErrorView::UnsupportedInitializer),
            Some(v) => if ops.len() == 1 {
                Err(ImageErrorView::Parse(error))
            } else if ops[1] is End {
                Ok(v)
            } else {
                Err(ImageErrorView::UnsupportedInitializer)
            },
        }
    }
}

/// The value of a constant instruction.
pub open spec fn constant(op: Operator) -> Option<Value> {
    match op {
        Operator::I32Const { value } => Some(Value::I32(value)),
        Operator::I64Const { value } => Some(Value::I64(value)),
        Operator::F32Const { value } => Some(Value::F32(value)),
        Operator::F64Const { value } => Some(Value::F64(value)),
        _ => None,
    }
}

/// A constant initializer that must be a `u32` offset.
pub open spec fn offset_of(init: ListingView) -> Result<u32, ImageErrorView> {
    match constant_of(init) {
        Ok(Value::I32(v)) => Ok(v as u32),
        Ok(_) => Err(ImageErrorView::UnsupportedInitializer),
        Err(e) => Err(e),
    }
}

/// A function, decoded, viewed.
pub struct FunctionView {
    /// Index of its type.
    pub type_index: u32,
    /// One entry per declared local.
    pub local_types: Seq<ValTypeView>,
    /// Its instructions.
    pub ops: Seq<Operator>,
    /// Where its constructs end.
    pub control: Seq<Option<Control>>,
}

/// What has been decoded so far.
pub struct Draft {
    /// Function types.
    pub types: Seq<FuncTypeView>,
    /// Type index for every function.
    pub func_types: Seq<u32>,
    /// The imported host functions.
    pub host_imports: Seq<HostFunction>,
    /// Defined functions.
    pub functions: Seq<FunctionView>,
    /// Linear memory.
    pub memory: Option<MemorySpec>,
    /// Globals.
    pub globals: Seq<GlobalSpec>,
    /// The function table.
    pub table: Option<TableSpec>,
    /// Element segments.
    pub elements: Seq<ElementView>,
    /// Data segments.
    pub data: Seq<DataView>,
    /// The entry point.
    pub entry: Option<u32>,
    /// The function index of `charge`.
    pub charge: Option<u32>,
    /// Type index for every defined function.
    pub defined_types: Seq<u32>,
}

/// Nothing decoded yet.
pub open spec fn blank() -> Draft {
    Draft {
        types: Seq::empty(),
        func_types: Seq::empty(),
        host_imports: Seq::empty(),
        functions: Seq::empty(),
        memory: None,
        globals: Seq::empty(),
        table: None,
        elements: Seq::empty(),
        data: Seq::empty(),
        entry: None,
        charge: None,
        defined_types: Seq::empty(),
    }
}

/// A section that ended well, or in the reader's error.
pub open spec fn ended<T>(d: T, error: Option<Seq<char>>) -> Result<T, ImageErrorView> {
    match error {
        Some(e) => Err(ImageErrorView::Parse(e)),
        None => Ok(d),
    }
}

/// A type entry. One that is not a function type is held by an empty signature, so that type
/// indices stay aligned.
pub open spec fn type_entry(t: Option<(Seq<Seq<char>>, Seq<Seq<char>>)>) -> FuncTypeView {
    match t {
        Some((params, results)) => FuncTypeView {
            params: wasm::types_named(params),
            results: wasm::types_named(results),
        },
        None => FuncTypeView { params: Seq::empty(), results: Seq::empty() },
    }
}

/// Which host function an import names, if any.
pub open spec fn host_named(module: Seq<char>, name: Seq<char>) -> Option<HostFunction> {
    if module != HOST_MODULE@ {
        None
    } else if name == HOST_INPUT@ {
        Some(HostFunction::Input)
    } else if name == HOST_OUTPUT@ {
        Some(HostFunction::Output)
    } else if name == HOST_CHARGE@ {
        Some(HostFunction::Charge)
    } else {
        None
    }
}

/// Taking in one import.
pub open spec fn with_import(d: Draft, i: ImportView) -> Result<Draft, ImageErrorView> {
    match (i.ty, host_named(i.module, i.name)) {
        (ImportTypeView::Func(type_index), Some(host)) => Ok(
            Draft {
                charge: if host is Charge {
                    Some(clamped(d.host_imports.len()))
                } else {
                    d.charge
                },
                host_imports: d.host_imports.push(host),
                func_types: d.func_types.push(type_index),
                ..d
            },
        ),
        _ => Err(ImageErrorView::UnsupportedImport(i.module, i.name)),
    }
}

/// Taking in the first `n` imports.
pub open spec fn with_imports(d: Draft, imports: Seq<ImportView>, n: nat) -> Result<
    Draft,
    ImageErrorView,
>
    decreases n,
{
    if n == 0 {
        Ok(d)
    } else {
        match with_imports(d, imports, (n - 1) as nat) {
            Ok(d) => with_import(d, imports[n - 1]),
            Err(e) => Err(e),
        }
    }
}

/// The memory after the first `n` declarations: the last one, each of which must be bounded.
pub open spec fn with_memories(
    d: Option<MemorySpec>,
    memories: Seq<wasm::MemoryType>,
    n: nat,
) -> Result<Option<MemorySpec>, ImageErrorView>
    decreases n,
{
    if n == 0 {
        Ok(d)
    } else {
        match with_memories(d, memories, (n - 1) as nat) {
            Ok(_) => match memories[n - 1].maximum {
                Some(maximum) => Ok(
                    Some(
                        MemorySpec {
                            initial_pages: clamped(memories[n - 1].initial as nat),
                            maximum_pages: clamped(maximum as nat),
                        },
                    ),
                ),
                None => Err(ImageErrorView::BadMemory),
            },
            Err(e) => Err(e),
        }
    }
}

/// A table declaration.
pub open spec fn table_entry(t: wasm::TableType) -> TableSpec {
    TableSpec {
        initial: clamped(t.initial as nat),
        maximum: match t.maximum {
            Some(m) => Some(clamped(m as nat)),
            None => None,
        },
    }
}

/// The globals after the first `n` declarations.
pub open spec fn with_globals(d: Seq<GlobalSpec>, globals: Seq<GlobalView>, n: nat) -> Result<
    Seq<GlobalSpec>,
    ImageErrorView,
>
    decreases n,
{
    if n == 0 {
        Ok(d)
    } else {
        match with_globals(d, globals, (n - 1) as nat) {
            Ok(d) => match constant_of(globals[n - 1].init) {
                Ok(init) => Ok(d.push(GlobalSpec { mutable: globals[n - 1].mutable, init })),
                Err(e) => Err(e),
            },
            Err(e) => Err(e),
        }
    }
}

/// The entry point after the first `n` exports: the last function of that name.
pub open spec fn with_exports(
    d: Option<u32>,
    exports: Seq<wasm::ExportView>,
    n: nat,
) -> Option<u32>
    decreases n,
{
    if n == 0 {
        d
    } else if exports[n - 1].name == ENTRY_POINT@ && exports[n - 1].kind is Func {
        Some(exports[n - 1].index)
    } else {
        with_exports(d, exports, (n - 1) as nat)
    }
}

/// The functions an element segment lists. Expressions are not functions and list none.
pub open spec fn functions_listed(e: module::ElementView) -> Result<Seq<u32>, ImageErrorView> {
    match e.functions {
        Some((found, error)) => ended(found, error),
        None => Ok(Seq::empty()),
    }
}

/// An element segment.
pub open spec fn element_entry(e: module::ElementView) -> Result<ElementView, ImageErrorView> {
    match functions_listed(e) {
        Err(e) => Err(e),
        Ok(functions) => match e.mode {
            ModeView::Active(offset) => match offset_of(offset) {
                Ok(offset) => Ok(ElementView::Active { offset, functions }),
                Err(e) => Err(e),
            },
            ModeView::Passive => Ok(ElementView::Passive { functions }),
            ModeView::Declared => Ok(ElementView::Declared),
        },
    }
}

/// The element segments after the first `n`.
pub open spec fn with_elements(
    d: Seq<ElementView>,
    elements: Seq<module::ElementView>,
    n: nat,
) -> Result<Seq<ElementView>, ImageErrorView>
    decreases n,
{
    if n == 0 {
        Ok(d)
    } else {
        match with_elements(d, elements, (n - 1) as nat) {
            Ok(d) => match element_entry(elements[n - 1]) {
                Ok(e) => Ok(d.push(e)),
                Err(e) => Err(e),
            },
            Err(e) => Err(e),
        }
    }
}

/// A data segment.
pub open spec fn data_entry(d: SegmentView) -> Result<DataView, ImageErrorView> {
    match d.offset {
        Some(offset) => match offset_of(offset) {
            Ok(offset) => Ok(DataView::Active { offset, bytes: d.bytes }),
            Err(e) => Err(e),
        },
        None => Ok(DataView::Passive { bytes: d.bytes }),
    }
}

/// The data segments after the first `n`.
pub open spec fn with_data(d: Seq<DataView>, segments: Seq<SegmentView>, n: nat) -> Result<
    Seq<DataView>,
    ImageErrorView,
>
    decreases n,
{
    if n == 0 {
        Ok(d)
    } else {
        match with_data(d, segments, (n - 1) as nat) {
            Ok(d) => match data_entry(segments[n - 1]) {
                Ok(e) => Ok(d.push(e)),
                Err(e) => Err(e),
            },
            Err(e) => Err(e),
        }
    }
}

/// How many locals the first `n` runs declare.
pub open spec fn declared_locals(runs: Seq<(u32, Seq<char>)>, n: nat) -> nat
    decreases n,
{
    if n == 0 {
        0
    } else {
        declared_locals(runs, (n - 1) as nat) + runs[n - 1].0 as nat
    }
}

/// The locals that the first `n` runs declare, expanded.
pub open spec fn expanded_locals(
    runs: Seq<(u32, Seq<char>)>,
    function: nat,
    n: nat,
) -> Result<Seq<ValTypeView>, ImageErrorView>
    decreases n,
{
    if n == 0 {
        Ok(Seq::empty())
    } else {
        match expanded_locals(runs, function, (n - 1) as nat) {
            Ok(l) => {
                let declared = declared_locals(runs, n);
                if declared > MAX_LOCALS_PER_FUNCTION {
                    Err(ImageErrorView::TooManyLocals(function, declared))
                } else {
                    let run = runs[n - 1];
                    Ok(l + Seq::new(run.0 as nat, |i: int| wasm::type_named(run.1)))
                }
            },
            Err(e) => Err(e),
        }
    }
}

/// The instructions of a body.
pub open spec fn body_code(b: BodyView) -> Result<Seq<Operator>, ImageErrorView> {
    match b.code {
        Err(e) => Err(ImageErrorView::Parse(e)),
        Ok(listing) => if listing.complete {
            Ok(listing.ops)
        } else {
            Err(ImageErrorView::Parse(listing.error))
        },
    }
}

/// A function body.
pub open spec fn body_entry(d: Draft, b: BodyView) -> Result<FunctionView, ImageErrorView> {
    let index = d.functions.len();
    if index >= d.defined_types.len() {
        Err(ImageErrorView::BodyWithoutSignature(index))
    } else {
        let (runs, error) = b.locals;
        match expanded_locals(runs, index, runs.len()) {
            Err(e) => Err(e),
            Ok(local_types) => match error {
                Some(e) => Err(ImageErrorView::Parse(e)),
                None => match body_code(b) {
                    Err(e) => Err(e),
                    Ok(ops) => match resolved(ops) {
                        None => Err(ImageErrorView::UnbalancedControl(index)),
                        Some(control) => Ok(
                            FunctionView {
                                type_index: d.defined_types[index as int],
                                local_types,
                                ops,
                                control,
                            },
                        ),
                    },
                },
            },
        }
    }
}

/// Taking in one part of a module.
pub open spec fn with_part(d: Draft, p: PartView) -> Result<Draft, ImageErrorView> {
    match p {
        PartView::Types(types, error) => ended(
            Draft {
                types: d.types + types.map_values(
                    |t: Option<(Seq<Seq<char>>, Seq<Seq<char>>)>| type_entry(t),
                ),
                ..d
            },
            error,
        ),
        PartView::Imports(imports, error) => match with_imports(d, imports, imports.len()) {
            Ok(d) => ended(d, error),
            Err(e) => Err(e),
        },
        PartView::Functions(found, error) => ended(
            Draft {
                defined_types: d.defined_types + found,
                func_types: d.func_types + found,
                ..d
            },
            error,
        ),
        PartView::Memories(found, error) => match with_memories(d.memory, found, found.len()) {
            Ok(memory) => ended(Draft { memory, ..d }, error),
            Err(e) => Err(e),
        },
        PartView::Tables(found, error) => {
            let table = if found.len() == 0 {
                d.table
            } else {
                Some(table_entry(found.last()))
            };
            ended(Draft { table, ..d }, error)
        },
        PartView::Globals(found, error) => match with_globals(d.globals, found, found.len()) {
            Ok(globals) => ended(Draft { globals, ..d }, error),
            Err(e) => Err(e),
        },
        PartView::Exports(found, error) => ended(
            Draft { entry: with_exports(d.entry, found, found.len()), ..d },
            error,
        ),
        PartView::Elements(found, error) => match with_elements(d.elements, found, found.len()) {
            Ok(elements) => ended(Draft { elements, ..d }, error),
            Err(e) => Err(e),
        },
        PartView::Data(found, error) => match with_data(d.data, found, found.len()) {
            Ok(data) => ended(Draft { data, ..d }, error),
            Err(e) => Err(e),
        },
        PartView::Code(b) => match body_entry(d, b) {
            Ok(f) => Ok(Draft { functions: d.functions.push(f), ..d }),
            Err(e) => Err(e),
        },
        _ => Ok(d),
    }
}

/// Taking in the first `n` parts of a module.
pub open spec fn with_parts(parts: Seq<PartView>, n: nat) -> Result<Draft, ImageErrorView>
    decreases n,
{
    if n == 0 {
        Ok(blank())
    } else {
        match with_parts(parts, (n - 1) as nat) {
            Ok(d) => with_part(d, parts[n - 1]),
            Err(e) => Err(e),
        }
    }
}

/// What a module decodes to, or why it does not: its parts in order, the reader's own error, and
/// then what must be there and is not.
pub open spec fn decoded(m: ModuleView) -> Result<Draft, ImageErrorView> {
    match with_parts(m.parts, m.parts.len()) {
        Err(e) => Err(e),
        Ok(d) => match m.error {
            Some(e) => Err(ImageErrorView::Parse(e)),
            None => if d.memory is None {
                Err(ImageErrorView::BadMemory)
            } else if d.entry is None {
                Err(ImageErrorView::NoEntryPoint)
            } else if d.charge is None {
                Err(ImageErrorView::NotInstrumented)
            } else {
                Ok(d)
            },
        },
    }
}

/// Does a function hold what was decoded?
pub open spec fn holds_function(f: Function, v: FunctionView) -> bool {
    &&& f.type_index == v.type_index
    &&& f.local_types.deep_view() == v.local_types
    &&& same_operators(f.ops@, v.ops)
    &&& f.control@ == v.control
}

/// Do functions hold what was decoded?
pub open spec fn holds_functions(f: Seq<Function>, v: Seq<FunctionView>) -> bool {
    f.len() == v.len() && forall|i: int| 0 <= i < f.len() ==> holds_function(#[trigger] f[i], v[i])
}

/// Does an image hold what was decoded?
pub open spec fn holds(image: Image, d: Draft) -> bool {
    &&& image.types.deep_view() == d.types
    &&& image.func_types@ == d.func_types
    &&& image.host_imports@ == d.host_imports
    &&& holds_functions(image.functions@, d.functions)
    &&& Some(image.memory) == d.memory
    &&& image.globals@ == d.globals
    &&& image.table == d.table
    &&& image.elements.deep_view() == d.elements
    &&& image.data.deep_view() == d.data
    &&& Some(image.entry) == d.entry
    &&& Some(image.charge) == d.charge
}

/// Evaluate a constant initializer expression.
fn eval_const(listing: &Listing, Ghost(init): Ghost<ListingView>) -> (r: Result<Value, ImageError>)
    requires
        same_listing(listing.deep_view(), init),
    ensures
        match (r, constant_of(init)) {
            (Ok(v), Ok(u)) => v == u,
            (Err(e), Err(f)) => e@ == f,
            _ => false,
        },
{
    let ghost ops = init.ops;
    if listing.ops.len() == 0 {
        return Err(ImageError::Parse { detail: listing.error.clone() });
    }
    assert(same_operator(listing.ops@[0], ops[0]));
    let value = match &listing.ops[0] {
        Operator::I32Const { value } => Value::I32(*value),
        Operator::I64Const { value } => Value::I64(*value),
        Operator::F32Const { value } => Value::F32(*value),
        Operator::F64Const { value } => Value::F64(*value),
        _ => return Err(ImageError::UnsupportedInitializer),
    };
    if listing.ops.len() == 1 {
        return Err(ImageError::Parse { detail: listing.error.clone() });
    }
    assert(same_operator(listing.ops@[1], ops[1]));
    match &listing.ops[1] {
        Operator::End => Ok(value),
        _ => Err(ImageError::UnsupportedInitializer),
    }
}

/// A constant initializer that must be a `u32` offset.
fn eval_offset(listing: &Listing, Ghost(init): Ghost<ListingView>) -> (r: Result<u32, ImageError>)
    requires
        same_listing(listing.deep_view(), init),
    ensures
        match (r, offset_of(init)) {
            (Ok(v), Ok(u)) => v == u,
            (Err(e), Err(f)) => e@ == f,
            _ => false,
        },
{
    match eval_const(listing, Ghost(init)) {
        Ok(Value::I32(v)) => Ok(v as u32),
        Ok(_) => Err(ImageError::UnsupportedInitializer),
        Err(e) => Err(e),
    }
}

/// An image being put together.
struct Drafting {
    types: Vec<FuncType>,
    func_types: Vec<u32>,
    host_imports: Vec<HostFunction>,
    functions: Vec<Function>,
    memory: Option<MemorySpec>,
    globals: Vec<GlobalSpec>,
    table: Option<TableSpec>,
    elements: Vec<ElementSegment>,
    data: Vec<DataSegment>,
    entry: Option<u32>,
    charge: Option<u32>,
    defined_types: Vec<u32>,
}

impl Drafting {
    spec fn drafts(&self, d: Draft) -> bool {
        &&& self.types.deep_view() == d.types
        &&& self.func_types@ == d.func_types
        &&& self.host_imports@ == d.host_imports
        &&& holds_functions(self.functions@, d.functions)
        &&& self.memory == d.memory
        &&& self.globals@ == d.globals
        &&& self.table == d.table
        &&& self.elements.deep_view() == d.elements
        &&& self.data.deep_view() == d.data
        &&& self.entry == d.entry
        &&& self.charge == d.charge
        &&& self.defined_types@ == d.defined_types
    }

    /// The section ended in the reader's error, if there was one.
    fn end(error: Option<String>) -> (r: Result<(), ImageError>)
        ensures
            match (r, error.deep_view()) {
                (Ok(_), None) => true,
                (Err(e), Some(f)) => e@ == ImageErrorView::Parse(f),
                _ => false,
            },
    {
        match error {
            Some(detail) => Err(ImageError::Parse { detail }),
            None => Ok(()),
        }
    }

    /// Did taking in a part do what it should?
    spec fn took(&self, r: Result<(), ImageError>, d: Result<Draft, ImageErrorView>) -> bool {
        match (r, d) {
            (Ok(_), Ok(d)) => self.drafts(d),
            (Err(e), Err(f)) => e@ == f,
            _ => false,
        }
    }

    fn take_types(
        &mut self,
        types: Vec<Option<(Vec<String>, Vec<String>)>>,
        error: Option<String>,
        Ghost(d): Ghost<Draft>,
    ) -> (r: Result<(), ImageError>)
        requires
            old(self).drafts(d),
        ensures
            final(self).took(r, with_part(d, PartView::Types(types.deep_view(), error.deep_view()))),
    {
        let ghost found = types.deep_view();
        let mut i: usize = 0;
        let ghost entry = |t: Option<(Seq<Seq<char>>, Seq<Seq<char>>)>| type_entry(t);
        assert(self.types.deep_view() =~= d.types + found.take(0).map_values(entry));
        while i < types.len()
            invariant
                i <= types@.len(),
                types.deep_view() == found,
                entry == (|t: Option<(Seq<Seq<char>>, Seq<Seq<char>>)>| type_entry(t)),
                self.drafts(Draft { types: d.types + found.take(i as int).map_values(entry), ..d }),
            decreases types@.len() - i,
        {
            let ghost before = self.types.deep_view();
            let next = match &types[i] {
                Some((params, results)) => FuncType {
                    params: wasm::name_types(params),
                    results: wasm::name_types(results),
                },
                None => FuncType { params: Vec::new(), results: Vec::new() },
            };
            proof {
                assert(types.deep_view()[i as int] == found[i as int]);
                if types@[i as int] is None {
                    assert(next.params.deep_view() =~= Seq::empty());
                    assert(next.results.deep_view() =~= Seq::empty());
                }
                assert(next.deep_view() == type_entry(found[i as int]));
            }
            self.types.push(next);
            proof {
                assert(self.types.deep_view() =~= before.push(next.deep_view()));
                assert(self.types.deep_view() =~= d.types + found.take(i + 1).map_values(entry));
            }
            i = i + 1;
        }
        assert(found.take(i as int) =~= found);
        Self::end(error)
    }

    fn take_imports(
        &mut self,
        imports: Vec<Import>,
        error: Option<String>,
        Ghost(d): Ghost<Draft>,
    ) -> (r: Result<(), ImageError>)
        requires
            old(self).drafts(d),
        ensures
            final(self).took(r, with_part(d, PartView::Imports(imports.deep_view(), error.deep_view()))),
    {
        let ghost listed = imports.deep_view();
        let mut i: usize = 0;
        while i < imports.len()
            invariant
                i <= imports@.len(),
                listed == imports.deep_view(),
                with_imports(d, listed, i as nat) matches Ok(e) && self.drafts(e),
            decreases imports@.len() - i,
        {
            assert(imports@[i as int].deep_view() == listed[i as int]);
            let host = host_of(&imports[i].module, &imports[i].name);
            match (&imports[i].ty, host) {
                (ImportType::Func(type_index), Some(host)) => {
                    if host == HostFunction::Charge {
                        self.charge = Some(clamp(self.host_imports.len() as u64));
                    }
                    self.host_imports.push(host);
                    self.func_types.push(*type_index);
                },
                _ => {
                    proof {
                        lemma_imports_err(d, listed, (i + 1) as nat, listed.len());
                    }
                    return Err(
                        ImageError::UnsupportedImport {
                            module: imports[i].module.clone(),
                            name: imports[i].name.clone(),
                        },
                    );
                },
            }
            i = i + 1;
        }
        Self::end(error)
    }

    fn take_functions(
        &mut self,
        found: Vec<u32>,
        error: Option<String>,
        Ghost(d): Ghost<Draft>,
    ) -> (r: Result<(), ImageError>)
        requires
            old(self).drafts(d),
        ensures
            final(self).took(r, with_part(d, PartView::Functions(found@, error.deep_view()))),
    {
        let mut i: usize = 0;
        assert(self.func_types@ =~= d.func_types + found@.take(0));
        assert(self.defined_types@ =~= d.defined_types + found@.take(0));
        while i < found.len()
            invariant
                i <= found@.len(),
                self.drafts(
                    Draft {
                        func_types: d.func_types + found@.take(i as int),
                        defined_types: d.defined_types + found@.take(i as int),
                        ..d
                    },
                ),
            decreases found@.len() - i,
        {
            self.func_types.push(found[i]);
            self.defined_types.push(found[i]);
            assert(self.func_types@ =~= d.func_types + found@.take(i + 1));
            assert(self.defined_types@ =~= d.defined_types + found@.take(i + 1));
            i = i + 1;
        }
        assert(found@.take(i as int) =~= found@);
        Self::end(error)
    }

    fn take_memories(
        &mut self,
        found: Vec<wasm::MemoryType>,
        error: Option<String>,
        Ghost(d): Ghost<Draft>,
    ) -> (r: Result<(), ImageError>)
        requires
            old(self).drafts(d),
        ensures
            final(self).took(r, with_part(d, PartView::Memories(found@, error.deep_view()))),
    {
        let mut i: usize = 0;
        while i < found.len()
            invariant
                i <= found@.len(),
                with_memories(d.memory, found@, i as nat) matches Ok(memory) && self.drafts(
                    Draft { memory, ..d },
                ),
            decreases found@.len() - i,
        {
            match found[i].maximum {
                Some(maximum) => {
                    self.memory = Some(
                        MemorySpec {
                            initial_pages: clamp(found[i].initial),
                            maximum_pages: clamp(maximum),
                        },
                    );
                },
                None => {
                    proof {
                        lemma_memories_err(d.memory, found@, (i + 1) as nat, found@.len());
                    }
                    return Err(ImageError::BadMemory);
                },
            }
            i = i + 1;
        }
        Self::end(error)
    }

    fn take_tables(
        &mut self,
        found: Vec<wasm::TableType>,
        error: Option<String>,
        Ghost(d): Ghost<Draft>,
    ) -> (r: Result<(), ImageError>)
        requires
            old(self).drafts(d),
        ensures
            final(self).took(r, with_part(d, PartView::Tables(found@, error.deep_view()))),
    {
        if found.len() > 0 {
            let t = found[found.len() - 1];
            self.table = Some(
                TableSpec {
                    initial: clamp(t.initial),
                    maximum: match t.maximum {
                        Some(m) => Some(clamp(m)),
                        None => None,
                    },
                },
            );
        }
        Self::end(error)
    }

    fn take_globals(
        &mut self,
        found: Vec<module::Global>,
        error: Option<String>,
        Ghost(d): Ghost<Draft>,
        Ghost(listed): Ghost<Seq<GlobalView>>,
    ) -> (r: Result<(), ImageError>)
        requires
            old(self).drafts(d),
            same_globals(found.deep_view(), listed),
        ensures
            final(self).took(r, with_part(d, PartView::Globals(listed, error.deep_view()))),
    {
        let mut i: usize = 0;
        while i < found.len()
            invariant
                i <= found@.len(),
                same_globals(found.deep_view(), listed),
                with_globals(d.globals, listed, i as nat) matches Ok(globals) && self.drafts(
                    Draft { globals, ..d },
                ),
            decreases found@.len() - i,
        {
            assert(found.deep_view()[i as int] == found@[i as int].deep_view());
            match eval_const(&found[i].init, Ghost(listed[i as int].init)) {
                Ok(init) => self.globals.push(GlobalSpec { mutable: found[i].mutable, init }),
                Err(e) => {
                    proof {
                        lemma_globals_err(d.globals, listed, (i + 1) as nat, listed.len());
                    }
                    return Err(e);
                },
            }
            i = i + 1;
        }
        Self::end(error)
    }

    fn take_exports(
        &mut self,
        found: Vec<wasm::Export>,
        error: Option<String>,
        Ghost(d): Ghost<Draft>,
    ) -> (r: Result<(), ImageError>)
        requires
            old(self).drafts(d),
        ensures
            final(self).took(r, with_part(d, PartView::Exports(found.deep_view(), error.deep_view()))),
    {
        let ghost listed = found.deep_view();
        let mut i: usize = 0;
        while i < found.len()
            invariant
                i <= found@.len(),
                found.deep_view() == listed,
                self.drafts(Draft { entry: with_exports(d.entry, listed, i as nat), ..d }),
            decreases found@.len() - i,
        {
            assert(found.deep_view()[i as int] == listed[i as int]);
            if is_text(&found[i].name, ENTRY_POINT) && found[i].kind == ExternalKind::Func {
                self.entry = Some(found[i].index);
            }
            i = i + 1;
        }
        Self::end(error)
    }

    fn take_elements(
        &mut self,
        found: Vec<module::Element>,
        error: Option<String>,
        Ghost(d): Ghost<Draft>,
        Ghost(listed): Ghost<Seq<module::ElementView>>,
    ) -> (r: Result<(), ImageError>)
        requires
            old(self).drafts(d),
            same_elements(found.deep_view(), listed),
        ensures
            final(self).took(r, with_part(d, PartView::Elements(listed, error.deep_view()))),
    {
        let mut i: usize = 0;
        while i < found.len()
            invariant
                i <= found@.len(),
                same_elements(found.deep_view(), listed),
                with_elements(d.elements, listed, i as nat) matches Ok(elements) && self.drafts(
                    Draft { elements, ..d },
                ),
            decreases found@.len() - i,
        {
            assert(found.deep_view()[i as int] == found@[i as int].deep_view());
            assert(same_element(found.deep_view()[i as int], listed[i as int]));
            let ghost before = self.elements.deep_view();
            match decode_element(&found[i], Ghost(listed[i as int])) {
                Ok(e) => {
                    self.elements.push(e);
                    assert(self.elements.deep_view() =~= before.push(e.deep_view()));
                },
                Err(e) => {
                    proof {
                        lemma_elements_err(d.elements, listed, (i + 1) as nat, listed.len());
                    }
                    return Err(e);
                },
            }
            i = i + 1;
        }
        Self::end(error)
    }

    fn take_data(
        &mut self,
        found: Vec<Segment>,
        error: Option<String>,
        Ghost(d): Ghost<Draft>,
        Ghost(listed): Ghost<Seq<SegmentView>>,
    ) -> (r: Result<(), ImageError>)
        requires
            old(self).drafts(d),
            same_segments(found.deep_view(), listed),
        ensures
            final(self).took(r, with_part(d, PartView::Data(listed, error.deep_view()))),
    {
        let mut i: usize = 0;
        while i < found.len()
            invariant
                i <= found@.len(),
                same_segments(found.deep_view(), listed),
                with_data(d.data, listed, i as nat) matches Ok(data) && self.drafts(
                    Draft { data, ..d },
                ),
            decreases found@.len() - i,
        {
            assert(found.deep_view()[i as int] == found@[i as int].deep_view());
            assert(same_segment(found.deep_view()[i as int], listed[i as int]));
            let ghost before = self.data.deep_view();
            let copy: Vec<u8> = vstd::slice::slice_to_vec(found[i].bytes.as_slice());
            let segment = match &found[i].offset {
                Some(o) => match eval_offset(o, Ghost(listed[i as int].offset->0)) {
                    Ok(offset) => DataSegment::Active { offset, bytes: copy },
                    Err(e) => {
                        proof {
                            lemma_data_err(d.data, listed, (i + 1) as nat, listed.len());
                        }
                        return Err(e);
                    },
                },
                None => DataSegment::Passive { bytes: copy },
            };
            self.data.push(segment);
            assert(self.data.deep_view() =~= before.push(segment.deep_view()));
            i = i + 1;
        }
        Self::end(error)
    }

    fn take_body(&mut self, b: Body, Ghost(d): Ghost<Draft>, Ghost(v): Ghost<BodyView>) -> (r:
        Result<(), ImageError>)
        requires
            old(self).drafts(d),
            same_body(b.deep_view(), v),
        ensures
            final(self).took(r, with_part(d, PartView::Code(v))),
    {
        let index: usize = self.functions.len();
        if index >= self.defined_types.len() {
            return Err(ImageError::BodyWithoutSignature { index });
        }
        let type_index: u32 = self.defined_types[index];
        let Body { locals: (runs, error), code } = b;
        let local_types = match expand_locals(&runs, index) {
            Ok(l) => l,
            Err(e) => return Err(e),
        };
        if let Some(detail) = error {
            return Err(ImageError::Parse { detail });
        }
        let listing = match code {
            Ok(listing) => listing,
            Err(detail) => return Err(ImageError::Parse { detail }),
        };
        if !listing.complete {
            return Err(ImageError::Parse { detail: listing.error });
        }
        proof {
            let ops = v.code->Ok_0.ops;
            lemma_same_nested(listing.ops@, ops, ops.len());
        }
        let control = match resolve_control(&listing.ops, index) {
            Ok(c) => c,
            Err(e) => return Err(e),
        };
        let ghost before = self.functions@;
        self.functions.push(Function { type_index, local_types, ops: listing.ops, control });
        proof {
            let f = body_entry(d, v)->Ok_0;
            let v = d.functions.push(f);
            assert forall|i: int| 0 <= i < self.functions@.len() implies holds_function(
                #[trigger] self.functions@[i],
                v[i],
            ) by {
                if i < before.len() {
                    assert(holds_function(before[i], d.functions[i]));
                }
            }
        }
        Ok(())
    }
}

/// Which host function an import names, if any.
fn host_of(module: &String, name: &String) -> (r: Option<HostFunction>)
    ensures
        r == host_named(module@, name@),
{
    if !is_text(module, HOST_MODULE) {
        None
    } else if is_text(name, HOST_INPUT) {
        Some(HostFunction::Input)
    } else if is_text(name, HOST_OUTPUT) {
        Some(HostFunction::Output)
    } else if is_text(name, HOST_CHARGE) {
        Some(HostFunction::Charge)
    } else {
        None
    }
}

fn decode_element(e: &module::Element, Ghost(v): Ghost<module::ElementView>) -> (r: Result<
    ElementSegment,
    ImageError,
>)
    requires
        same_element(e.deep_view(), v),
    ensures
        match (r, element_entry(v)) {
            (Ok(e), Ok(v)) => e.deep_view() == v,
            (Err(e), Err(f)) => e@ == f,
            _ => false,
        },
{
    let functions: Vec<u32> = match &e.functions {
        Some((found, error)) => {
            assert(found.deep_view() =~= found@);
            if let Some(detail) = error {
                return Err(ImageError::Parse { detail: detail.clone() });
            }
            vstd::slice::slice_to_vec(found.as_slice())
        },
        None => Vec::new(),
    };
    match &e.mode {
        Mode::Active(offset) => match eval_offset(offset, Ghost(v.mode->Active_0)) {
            Ok(offset) => Ok(ElementSegment::Active { offset, functions }),
            Err(e) => Err(e),
        },
        Mode::Passive => Ok(ElementSegment::Passive { functions }),
        Mode::Declared => Ok(ElementSegment::Declared),
    }
}

/// Expand run-length declared locals.
fn expand_locals(runs: &Vec<(u32, String)>, function: usize) -> (r: Result<
    Vec<ValType>,
    ImageError,
>)
    ensures
        match (r, expanded_locals(runs.deep_view(), function as nat, runs@.len())) {
            (Ok(l), Ok(v)) => l.deep_view() == v,
            (Err(e), Err(f)) => e@ == f,
            _ => false,
        },
{
    let ghost listed = runs.deep_view();
    let mut locals: Vec<ValType> = Vec::new();
    let mut declared: u64 = 0;
    let mut i: usize = 0;
    assert(locals.deep_view() =~= Seq::empty());
    while i < runs.len()
        invariant
            i <= runs@.len(),
            listed == runs.deep_view(),
            declared == declared_locals(listed, i as nat),
            declared <= MAX_LOCALS_PER_FUNCTION,
            expanded_locals(listed, function as nat, i as nat) matches Ok(v) && v
                == locals.deep_view(),
        decreases runs@.len() - i,
    {
        assert(runs.deep_view()[i as int] == listed[i as int]);
        let count: u32 = runs[i].0;
        declared = declared + count as u64;
        if declared > MAX_LOCALS_PER_FUNCTION as u64 {
            proof {
                lemma_locals_err(listed, function as nat, (i + 1) as nat, listed.len());
            }
            return Err(ImageError::TooManyLocals { function, declared });
        }
        let ty = ValType::named(&runs[i].1);
        let ghost before = locals.deep_view();
        let ghost run = listed[i as int];
        let mut k: u32 = 0;
        assert(locals.deep_view() =~= before + Seq::new(0, |j: int| wasm::type_named(run.1)));
        while k < count
            invariant
                k <= count,
                ty.deep_view() == wasm::type_named(run.1),
                locals.deep_view() == before + Seq::new(
                    k as nat,
                    |j: int| wasm::type_named(run.1),
                ),
            decreases count - k,
        {
            let ghost prior = locals.deep_view();
            let copy = ty.duplicate();
            locals.push(copy);
            assert(locals.deep_view() =~= prior.push(copy.deep_view()));
            assert(locals.deep_view() =~= before + Seq::new(
                (k + 1) as nat,
                |j: int| wasm::type_named(run.1),
            ));
            k = k + 1;
        }
        i = i + 1;
    }
    Ok(locals)
}

proof fn lemma_imports_err(d: Draft, imports: Seq<ImportView>, n: nat, m: nat)
    requires
        n <= m,
        with_imports(d, imports, n) is Err,
    ensures
        with_imports(d, imports, m) == with_imports(d, imports, n),
    decreases m,
{
    if n < m {
        lemma_imports_err(d, imports, n, (m - 1) as nat);
    }
}

proof fn lemma_memories_err(
    d: Option<MemorySpec>,
    memories: Seq<wasm::MemoryType>,
    n: nat,
    m: nat,
)
    requires
        n <= m,
        with_memories(d, memories, n) is Err,
    ensures
        with_memories(d, memories, m) == with_memories(d, memories, n),
    decreases m,
{
    if n < m {
        lemma_memories_err(d, memories, n, (m - 1) as nat);
    }
}

proof fn lemma_globals_err(d: Seq<GlobalSpec>, globals: Seq<GlobalView>, n: nat, m: nat)
    requires
        n <= m,
        with_globals(d, globals, n) is Err,
    ensures
        with_globals(d, globals, m) == with_globals(d, globals, n),
    decreases m,
{
    if n < m {
        lemma_globals_err(d, globals, n, (m - 1) as nat);
    }
}

proof fn lemma_elements_err(d: Seq<ElementView>, elements: Seq<module::ElementView>, n: nat, m: nat)
    requires
        n <= m,
        with_elements(d, elements, n) is Err,
    ensures
        with_elements(d, elements, m) == with_elements(d, elements, n),
    decreases m,
{
    if n < m {
        lemma_elements_err(d, elements, n, (m - 1) as nat);
    }
}

proof fn lemma_data_err(d: Seq<DataView>, segments: Seq<SegmentView>, n: nat, m: nat)
    requires
        n <= m,
        with_data(d, segments, n) is Err,
    ensures
        with_data(d, segments, m) == with_data(d, segments, n),
    decreases m,
{
    if n < m {
        lemma_data_err(d, segments, n, (m - 1) as nat);
    }
}

proof fn lemma_locals_err(runs: Seq<(u32, Seq<char>)>, function: nat, n: nat, m: nat)
    requires
        n <= m,
        expanded_locals(runs, function, n) is Err,
    ensures
        expanded_locals(runs, function, m) == expanded_locals(runs, function, n),
    decreases m,
{
    if n < m {
        lemma_locals_err(runs, function, n, (m - 1) as nat);
    }
}

proof fn lemma_parts_err(parts: Seq<PartView>, n: nat, m: nat)
    requires
        n <= m,
        with_parts(parts, n) is Err,
    ensures
        with_parts(parts, m) == with_parts(parts, n),
    decreases m,
{
    if n < m {
        lemma_parts_err(parts, n, (m - 1) as nat);
    }
}

/// Put an image together from a module that has been read.
fn draft(m: Module, Ghost(v): Ghost<ModuleView>) -> (r: Result<Image, ImageError>)
    requires
        same_module(m.deep_view(), v),
    ensures
        match (r, decoded(v)) {
            (Ok(image), Ok(d)) => holds(image, d),
            (Err(e), Err(f)) => e@ == f,
            _ => false,
        },
{
    let Module { parts, error } = m;
    let mut parts = parts;
    let mut drafting = Drafting {
        types: Vec::new(),
        func_types: Vec::new(),
        host_imports: Vec::new(),
        functions: Vec::new(),
        memory: None,
        globals: Vec::new(),
        table: None,
        elements: Vec::new(),
        data: Vec::new(),
        entry: None,
        charge: None,
        defined_types: Vec::new(),
    };
    let mut i: usize = 0;
    proof {
        assert(drafting.types.deep_view() =~= blank().types);
        assert(drafting.elements.deep_view() =~= blank().elements);
        assert(drafting.data.deep_view() =~= blank().data);
    }
    let ghost given = parts@;
    assert forall|k: int| 0 <= k < given.len() implies same_part(
        (#[trigger] given[k]).deep_view(),
        v.parts[k],
    ) by {
        assert(same_part(m.deep_view().parts[k], v.parts[k]));
    }
    while i < parts.len()
        invariant
            i <= parts@.len() == given.len() == v.parts.len(),
            forall|k: int| i <= k < given.len() ==> #[trigger] parts@[k] == given[k],
            forall|k: int|
                0 <= k < given.len() ==> same_part(
                    (#[trigger] given[k]).deep_view(),
                    v.parts[k],
                ),
            with_parts(v.parts, i as nat) matches Ok(d) && drafting.drafts(d),
        decreases parts@.len() - i,
    {
        let ghost d = with_parts(v.parts, i as nat)->Ok_0;
        let ghost p = v.parts[i as int];
        let mut part = Part::Other;
        core::mem::swap(&mut part, &mut parts[i]);
        assert(same_part(given[i as int].deep_view(), p));
        let taken = match part {
            Part::Types(items, error) => drafting.take_types(items, error, Ghost(d)),
            Part::Imports(items, error) => drafting.take_imports(items, error, Ghost(d)),
            Part::Functions(items, error) => drafting.take_functions(items, error, Ghost(d)),
            Part::Memories(items, error) => drafting.take_memories(items, error, Ghost(d)),
            Part::Tables(items, error) => drafting.take_tables(items, error, Ghost(d)),
            Part::Globals(items, error) => drafting.take_globals(
                items,
                error,
                Ghost(d),
                Ghost(p->Globals_0),
            ),
            Part::Exports(items, error) => drafting.take_exports(items, error, Ghost(d)),
            Part::Elements(items, error) => drafting.take_elements(
                items,
                error,
                Ghost(d),
                Ghost(p->Elements_0),
            ),
            Part::Data(items, error) => drafting.take_data(
                items,
                error,
                Ghost(d),
                Ghost(p->Data_0),
            ),
            Part::Code(b) => drafting.take_body(b, Ghost(d), Ghost(p->Code_0)),
            _ => Ok(()),
        };
        assert(drafting.took(taken, with_part(d, p)));
        if let Err(e) = taken {
            proof {
                lemma_parts_err(v.parts, (i + 1) as nat, v.parts.len());
            }
            return Err(e);
        }
        i = i + 1;
    }
    if let Some(detail) = error {
        return Err(ImageError::Parse { detail });
    }
    let memory = match drafting.memory {
        Some(memory) => memory,
        None => return Err(ImageError::BadMemory),
    };
    let entry: u32 = match drafting.entry {
        Some(entry) => entry,
        None => return Err(ImageError::NoEntryPoint),
    };
    let charge: u32 = match drafting.charge {
        Some(charge) => charge,
        None => return Err(ImageError::NotInstrumented),
    };
    Ok(
        Image {
            types: drafting.types,
            func_types: drafting.func_types,
            host_imports: drafting.host_imports,
            functions: drafting.functions,
            memory,
            globals: drafting.globals,
            table: drafting.table,
            elements: drafting.elements,
            data: drafting.data,
            entry,
            charge,
        },
    )
}

/// Assemble an image from a module that has been read.
pub fn assemble(m: Module) -> (r: Result<Image, ImageError>)
    ensures
        match (r, decoded(m.deep_view())) {
            (Ok(image), Ok(d)) => holds(image, d),
            (Err(e), Err(f)) => e@ == f,
            _ => false,
        },
{
    proof {
        lemma_same_module(m.deep_view());
    }
    let ghost v = m.deep_view();
    draft(m, Ghost(v))
}

/// Decode an instrumented module.
///
/// Decoding assumes spec validity and only reports the structural problems it cannot proceed
/// past.
pub fn decode(module: &[u8]) -> (r: Result<Image, ImageError>)
    ensures
        match (r, decoded(module_of(module@))) {
            (Ok(image), Ok(d)) => holds(image, d),
            (Err(e), Err(f)) => e@ == f,
            _ => false,
        },
{
    draft(module::read(module), Ghost(module_of(module@)))
}

impl Image {
    /// The position of a defined function among the bodies, if the index names one.
    pub open spec fn defined(self, index: u32) -> Option<int> {
        let position = index - clamped(self.host_imports@.len());
        if 0 <= position < self.functions@.len() {
            Some(position)
        } else {
            None
        }
    }

    /// The signature of a function index.
    pub open spec fn signature_of(self, index: u32) -> Option<FuncType> {
        if index < self.func_types@.len() && self.func_types@[index as int] < self.types@.len() {
            Some(self.types@[self.func_types@[index as int] as int])
        } else {
            None
        }
    }

    /// The decoded body of a function index, or `None` if it names an import.
    #[must_use]
    pub fn function(&self, index: u32) -> (r: Option<&Function>)
        ensures
            match (r, self.defined(index)) {
                (Some(f), Some(i)) => *f == self.functions@[i],
                (None, None) => true,
                _ => false,
            },
    {
        let imports: u32 = clamp(self.host_imports.len() as u64);
        if index < imports {
            return None;
        }
        let position: usize = (index - imports) as usize;
        if position < self.functions.len() {
            Some(&self.functions[position])
        } else {
            None
        }
    }

    /// The host function an index names, or `None` if it names a defined function.
    #[must_use]
    pub fn host_function(&self, index: u32) -> (r: Option<HostFunction>)
        ensures
            r == (if index < self.host_imports@.len() {
                Some(self.host_imports@[index as int])
            } else {
                None
            }),
    {
        if (index as usize) < self.host_imports.len() {
            Some(self.host_imports[index as usize])
        } else {
            None
        }
    }

    /// The signature of any function index.
    #[must_use]
    pub fn signature(&self, index: u32) -> (r: Option<&FuncType>)
        ensures
            match (r, self.signature_of(index)) {
                (Some(f), Some(g)) => *f == g,
                (None, None) => true,
                _ => false,
            },
    {
        if (index as usize) >= self.func_types.len() {
            return None;
        }
        let type_index: u32 = self.func_types[index as usize];
        if (type_index as usize) < self.types.len() {
            Some(&self.types[type_index as usize])
        } else {
            None
        }
    }
}

/// Does an annotation point from its construct to an `end` behind it, and to an `else` in
/// between if to any?
pub open spec fn annotates(ops: Seq<Operator>, i: int, c: Control) -> bool {
    &&& i < c.end < ops.len()
    &&& bracket(ops[c.end as int]) is Close
    &&& c.otherwise matches Some(e) ==> i < e < c.end && bracket(ops[e as int]) is Middle
}

/// Does one of two constructs, the second beginning behind the first, end before the other
/// begins, or lie within it?
pub open spec fn apart_or_within(i: int, c: Control, j: int, d: Control) -> bool {
    i < j ==> c.end < j || d.end < c.end
}

/// Is the construct at `k` still open?
spec fn is_open(s: Nesting, k: int) -> bool {
    k >= 0 && s.open.contains(k as nat)
}

/// What holds of the annotations made so far.
spec fn nests(ops: Seq<Operator>, n: nat, s: Nesting) -> bool {
    &&& s.control.len() == ops.len()
    &&& forall|k: int|
        0 <= k < ops.len() ==> (#[trigger] s.control[k] is Some <==> k < n && bracket(
            ops[k],
        ) is Open)
    &&& forall|k: int|
        0 <= k < s.open.len() ==> (#[trigger] s.open[k]) < n && bracket(
            ops[s.open[k] as int],
        ) is Open
    &&& forall|k: int, l: int| 0 <= k < l < s.open.len() ==> #[trigger] s.open[k] < #[trigger] s.open[l]
    &&& forall|k: int|
        0 <= k < n && (#[trigger] s.control[k] is Some) ==> {
            let c = s.control[k]->0;
            if is_open(s, k) {
                c.otherwise matches Some(e) ==> k < e < n && bracket(ops[e as int]) is Middle
            } else {
                annotates(ops, k, c) && c.end < n
            }
        }
    &&& forall|k: int, o: int|
        0 <= k < n && (#[trigger] s.control[k] is Some) && !is_open(s, k) && #[trigger] is_open(
            s,
            o,
        ) ==> o < k || o > s.control[k]->0.end
    &&& forall|i: int, j: int|
        0 <= i < j < n && (#[trigger] s.control[i] is Some) && (#[trigger] s.control[j] is Some)
            && !is_open(s, i) && !is_open(s, j) ==> apart_or_within(
            i,
            s.control[i]->0,
            j,
            s.control[j]->0,
        )
}

proof fn lemma_nests(ops: Seq<Operator>, n: nat)
    requires
        n <= ops.len() <= u32::MAX,
        nested(ops, n) is Some,
    ensures
        nests(ops, n, nested(ops, n)->0),
    decreases n,
{
    let t = nested(ops, n)->0;
    if n > 0 {
        lemma_nests(ops, (n - 1) as nat);
        let s = nested(ops, (n - 1) as nat)->0;
        let at = (n - 1) as int;
        match bracket(ops[at]) {
            Bracket::Open => {
                assert(t.open == s.open.push(at as nat));
                assert forall|k: int| k != at implies #[trigger] is_open(t, k) == is_open(s, k) by {
                    if is_open(s, k) {
                        let x = choose|x: int| 0 <= x < s.open.len() && s.open[x] == k as nat;
                        assert(t.open[x] == k as nat);
                    }
                    if is_open(t, k) {
                        let x = choose|x: int| 0 <= x < t.open.len() && t.open[x] == k as nat;
                        assert(s.open[x] == k as nat);
                    }
                }
                assert(t.open[t.open.len() - 1] == at as nat);
                assert(is_open(t, at));
                assert(nests(ops, n, t));
            },
            Bracket::Middle => {
                assert forall|k: int| #[trigger] is_open(t, k) == is_open(s, k) by {}
                let top = s.open.last() as int;
                assert(s.open[s.open.len() - 1] == top as nat);
                assert(is_open(s, top));
                assert(nests(ops, n, t));
            },
            Bracket::Close => {
                if s.open.len() > 0 {
                    let top = s.open.last() as int;
                    assert(s.open[s.open.len() - 1] == top as nat);
                    assert(is_open(s, top));
                    assert(t.open == s.open.drop_last());
                    assert(!is_open(t, top)) by {
                        if is_open(t, top) {
                            let x = choose|x: int|
                                0 <= x < t.open.len() && t.open[x] == top as nat;
                            assert(s.open[x] == t.open[x]);
                        }
                    }
                    assert forall|k: int| k != top implies #[trigger] is_open(t, k) == is_open(
                        s,
                        k,
                    ) by {
                        if is_open(s, k) {
                            let x = choose|x: int| 0 <= x < s.open.len() && s.open[x] == k as nat;
                            assert(t.open[x] == k as nat);
                        }
                        if is_open(t, k) {
                            let x = choose|x: int| 0 <= x < t.open.len() && t.open[x] == k as nat;
                            assert(s.open[x] == k as nat);
                        }
                    }
                    assert forall|o: int| #[trigger] is_open(t, o) implies o < top by {
                        let x = choose|x: int| 0 <= x < t.open.len() && t.open[x] == o as nat;
                        assert(s.open[x] == o as nat);
                    }
                } else {
                    assert(t == s);
                }
                assert(nests(ops, n, t));
            },
            Bracket::Neither => {
                assert(t == s);
                assert(nests(ops, n, t));
            },
        }
    }
}

/// Constructs nest. Exactly the instructions that open one are annotated; each annotation
/// points forward, to an `end` and to an `else` before it if there is one; and of two constructs
/// one ends before the other begins, or lies within it.
///
/// Code of more instructions than an annotation can point to is left out.
pub proof fn law_constructs_nest(ops: Seq<Operator>, i: int, j: int)
    requires
        ops.len() <= u32::MAX,
        resolved(ops) is Some,
        0 <= i < ops.len(),
        0 <= j < ops.len(),
    ensures
        resolved(ops)->0.len() == ops.len(),
        resolved(ops)->0[i] is Some <==> bracket(ops[i]) is Open,
        resolved(ops)->0[i] matches Some(c) ==> annotates(ops, i, c),
        resolved(ops)->0[i] matches Some(c) ==> (resolved(ops)->0[j] matches Some(d)
            ==> apart_or_within(i, c, j, d)),
{
    lemma_nests(ops, ops.len());
    let s = nested(ops, ops.len())->0;
    assert(!is_open(s, i));
    assert(!is_open(s, j));
}

/// How many more constructs are opened than closed from one instruction to another.
pub open spec fn depth(ops: Seq<Operator>, from: int, to: int) -> int
    decreases to - from,
{
    if to <= from {
        0
    } else {
        depth(ops, from, to - 1) + match ops[to - 1] {
            Operator::Block { .. } | Operator::Loop { .. } | Operator::If { .. } => 1int,
            Operator::End => -1,
            _ => 0,
        }
    }
}

/// Is an instruction an `else` that belongs to the construct at `x` itself?
pub open spec fn is_own_else(ops: Seq<Operator>, x: int, e: int) -> bool {
    ops[e] is Else && depth(ops, x + 1, e) == 0
}

/// Is this the last `else` of a construct before some instruction, or is there none?
pub open spec fn is_last_else(ops: Seq<Operator>, x: int, limit: int, o: Option<u32>) -> bool {
    &&& o matches Some(e) ==> x < e < limit && is_own_else(ops, x, e as int)
    &&& forall|k: int|
        x < k < limit && #[trigger] is_own_else(ops, x, k) ==> o is Some && k <= o->0
}

/// Is every construct that is opened behind `x` closed before `end`, and none that was not?
pub open spec fn is_balanced(ops: Seq<Operator>, x: int, end: int) -> bool {
    &&& depth(ops, x + 1, end) == 0
    &&& forall|k: int| x < k <= end ==> #[trigger] depth(ops, x + 1, k) >= 0
}

proof fn lemma_balanced(ops: Seq<Operator>, x: int, n: nat)
    requires
        0 <= x < n <= ops.len() <= u32::MAX,
        nested(ops, n) is Some,
        bracket(ops[x]) is Open,
    ensures
        nested(ops, x as nat) is Some,
        ({
            let s = nested(ops, n)->0;
            let j = nested(ops, x as nat)->0.open.len() as int;
            &&& s.control[x] is Some
            &&& if s.open.contains(x as nat) {
                &&& j < s.open.len()
                &&& s.open[j] == x
                &&& depth(ops, x + 1, n as int) == s.open.len() - 1 - j
                &&& forall|k: int| x < k <= n ==> #[trigger] depth(ops, x + 1, k) >= 0
                &&& is_last_else(ops, x, n as int, s.control[x]->0.otherwise)
            } else {
                let c = s.control[x]->0;
                &&& c.end < n
                &&& ops[c.end as int] is End
                &&& is_balanced(ops, x, c.end as int)
                &&& is_last_else(ops, x, c.end as int, c.otherwise)
            }
        }),
    decreases n,
{
    let m = (n - 1) as nat;
    let s = nested(ops, m)->0;
    let t = nested(ops, n)->0;
    let at = m as int;
    lemma_nests(ops, m);
    lemma_nests(ops, n);
    if x == at {
        assert(t.open == s.open.push(at as nat));
        assert(t.open[s.open.len() as int] == at as nat);
        assert(t.open.contains(x as nat));
        assert(depth(ops, x + 1, n as int) == 0);
    } else {
        lemma_balanced(ops, x, m);
        let j = nested(ops, x as nat)->0.open.len() as int;
        assert(depth(ops, x + 1, n as int) == depth(ops, x + 1, at) + match ops[at] {
            Operator::Block { .. } | Operator::Loop { .. } | Operator::If { .. } => 1int,
            Operator::End => -1,
            _ => 0,
        });
        if s.open.contains(x as nat) {
            assert(is_own_else(ops, x, at) ==> ops[at] is Else);
            match bracket(ops[at]) {
                Bracket::Open => {
                    assert(t.open == s.open.push(at as nat));
                    assert(t.open[j] == x);
                },
                Bracket::Middle => {
                    let top = s.open.last() as int;
                    if j < s.open.len() - 1 {
                        assert(s.open[j] < s.open[s.open.len() - 1]);
                        assert(t.control[x] == s.control[x]);
                    } else {
                        assert(is_own_else(ops, x, at));
                    }
                },
                Bracket::Close => {
                    let top = s.open.last() as int;
                    assert(s.open.len() > 0);
                    if j < s.open.len() - 1 {
                        assert(s.open[j] < s.open[s.open.len() - 1]);
                        assert(t.control[x] == s.control[x]);
                        assert(t.open[j] == x);
                    } else {
                        assert(top == x);
                        assert(!t.open.contains(x as nat)) by {
                            if t.open.contains(x as nat) {
                                let k = choose|k: int| 0 <= k < t.open.len() && t.open[k] == x as nat;
                                assert(s.open[k] == t.open[k]);
                                assert(s.open[k] < s.open[s.open.len() - 1]);
                            }
                        }
                    }
                },
                Bracket::Neither => {},
            }
        } else {
            assert(!t.open.contains(x as nat)) by {
                if t.open.contains(x as nat) {
                    let k = choose|k: int| 0 <= k < t.open.len() && t.open[k] == x as nat;
                    assert(k < s.open.len());
                    assert(s.open[k] == t.open[k]);
                }
            }
            if s.open.len() > 0 {
                assert(s.open[s.open.len() - 1] == s.open.last());
                assert(s.open.last() != x as nat);
            }
            assert(t.control[x] == s.control[x]);
        }
    }
}

/// A construct ends at the `end` that closes it: between them every construct that is opened is
/// closed, and none that was not. Its `else` is the last one that is in no construct within it, and
/// it has none if there is none.
pub proof fn law_a_construct_ends_where_it_is_closed(ops: Seq<Operator>, x: int)
    requires
        ops.len() <= u32::MAX,
        resolved(ops) is Some,
        0 <= x < ops.len(),
        ops[x] is Block || ops[x] is Loop || ops[x] is If,
    ensures
        resolved(ops)->0[x] matches Some(c) && x < c.end < ops.len() && ops[c.end as int] is End
            && is_balanced(ops, x, c.end as int) && is_last_else(
            ops,
            x,
            c.end as int,
            c.otherwise,
        ),
{
    lemma_balanced(ops, x, ops.len());
    law_constructs_nest(ops, x, x);
}

/// How many constructs are open before an instruction. An `end` where none is closes the function.
pub open spec fn level(ops: Seq<Operator>, n: nat) -> nat
    decreases n,
{
    if n == 0 {
        0
    } else {
        let before = level(ops, (n - 1) as nat);
        match ops[n - 1] {
            Operator::Block { .. } | Operator::Loop { .. } | Operator::If { .. } => before + 1,
            Operator::End => if before > 0 {
                (before - 1) as nat
            } else {
                0
            },
            _ => before,
        }
    }
}

proof fn lemma_level(ops: Seq<Operator>, n: nat)
    requires
        n <= ops.len(),
    ensures
        nested(ops, n) is Some <==> forall|k: int|
            0 <= k < n && (#[trigger] ops[k]) is Else ==> level(ops, k as nat) > 0,
        nested(ops, n) matches Some(s) ==> s.open.len() == level(ops, n),
    decreases n,
{
    if n > 0 {
        let m = (n - 1) as nat;
        lemma_level(ops, m);
        if nested(ops, n) is Some {
            assert forall|k: int| 0 <= k < n && (#[trigger] ops[k]) is Else implies level(
                ops,
                k as nat,
            ) > 0 by {}
        } else if nested(ops, m) is Some {
            assert(ops[m as int] is Else && level(ops, m) == 0);
        }
    }
}

/// Code is refused exactly if an `else` is in no construct, or a construct is still open behind the
/// last instruction.
pub proof fn law_constructs_are_closed(ops: Seq<Operator>)
    ensures
        resolved(ops) is Some <==> level(ops, ops.len()) == 0 && forall|k: int|
            0 <= k < ops.len() && (#[trigger] ops[k]) is Else ==> level(ops, k as nat) > 0,
{
    lemma_level(ops, ops.len());
}

} // verus!
