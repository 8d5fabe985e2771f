//! Reading WebAssembly binaries.
//!
//! The binary format is `wasmparser`'s to read. This module turns what it finds into plain values
//! that the rest of the crate reasons about: where the sections are, what each section lists,
//! and what instructions a body holds. A reader's items are listed up to its first error, and
//! the error is carried as the reader renders it.
use crate::engine::operator::{BlockType, Operator, same_operator, same_operators};
use vstd::prelude::*;
use wasmparser::{
    BinaryReader, ElementItems as Listed, ElementKind as Mode, ExternalKind as Extern,
    Operator as Parsed, OperatorsReader, Parser, TypeRef,
};
use wasmparser::Payload::{
    CodeSectionEntry, CodeSectionStart, DataCountSection, DataSection, ElementSection,
    ExportSection, FunctionSection, GlobalSection, ImportSection, MemorySection, StartSection,
    TableSection, TagSection, TypeSection, UnknownSection,
};

verus! {

/// A value type.
#[derive(Debug, Clone, PartialEq, Eq)]
pub enum ValType {
    /// A 32-bit integer.
    I32,
    /// A 64-bit integer.
    I64,
    /// A 32-bit float.
    F32,
    /// A 64-bit float.
    F64,
    /// A vector.
    V128,
    /// A reference.
    Ref {
        /// Its rendering.
        name: String,
    },
}

/// A value type, its text as characters.
pub enum ValTypeView {
    /// A 32-bit integer.
    I32,
    /// A 64-bit integer.
    I64,
    /// A 32-bit float.
    F32,
    /// A 64-bit float.
    F64,
    /// A vector.
    V128,
    /// A reference.
    Ref(Seq<char>),
}

impl DeepView for ValType {
    type V = ValTypeView;

    open spec fn deep_view(&self) -> ValTypeView {
        match *self {
            ValType::I32 => ValTypeView::I32,
            ValType::I64 => ValTypeView::I64,
            ValType::F32 => ValTypeView::F32,
            ValType::F64 => ValTypeView::F64,
            ValType::V128 => ValTypeView::V128,
            ValType::Ref { name } => ValTypeView::Ref(name@),
        }
    }
}

/// The type that a rendering names: one of the numeric types, or else a reference.
pub open spec fn type_named(text: Seq<char>) -> ValTypeView {
    if text == "I32"@ {
        ValTypeView::I32
    } else if text == "I64"@ {
        ValTypeView::I64
    } else if text == "F32"@ {
        ValTypeView::F32
    } else if text == "F64"@ {
        ValTypeView::F64
    } else if text == "V128"@ {
        ValTypeView::V128
    } else {
        ValTypeView::Ref(text)
    }
}

impl ValType {
    /// The type that a rendering names.
    pub fn named(text: &String) -> (r: ValType)
        ensures
            r.deep_view() == type_named(text@),
    {
        if is_text(text, "I32") {
            ValType::I32
        } else if is_text(text, "I64") {
            ValType::I64
        } else if is_text(text, "F32") {
            ValType::F32
        } else if is_text(text, "F64") {
            ValType::F64
        } else if is_text(text, "V128") {
            ValType::V128
        } else {
            ValType::Ref { name: text.clone() }
        }
    }

    /// Compare two types.
    pub fn same(&self, other: &ValType) -> (r: bool)
        ensures
            r == (self.deep_view() == other.deep_view()),
    {
        match (self, other) {
            (ValType::I32, ValType::I32) => true,
            (ValType::I64, ValType::I64) => true,
            (ValType::F32, ValType::F32) => true,
            (ValType::F64, ValType::F64) => true,
            (ValType::V128, ValType::V128) => true,
            (ValType::Ref { name: a }, ValType::Ref { name: b }) => *a == *b,
            _ => false,
        }
    }

    /// A copy.
    pub fn duplicate(&self) -> (r: ValType)
        ensures
            r.deep_view() == self.deep_view(),
    {
        match self {
            ValType::I32 => ValType::I32,
            ValType::I64 => ValType::I64,
            ValType::F32 => ValType::F32,
            ValType::F64 => ValType::F64,
            ValType::V128 => ValType::V128,
            ValType::Ref { name } => ValType::Ref { name: name.clone() },
        }
    }
}

/// Compare two lists of types.
pub fn same_types(a: &Vec<ValType>, b: &Vec<ValType>) -> (r: bool)
    ensures
        r == (a.deep_view() == b.deep_view()),
{
    if a.len() != b.len() {
        assert(a.deep_view().len() != b.deep_view().len());
        return false;
    }
    let mut i: usize = 0;
    while i < a.len()
        invariant
            i <= a@.len(),
            a@.len() == b@.len(),
            forall|k: int| 0 <= k < i ==> (#[trigger] a@[k]).deep_view() == b@[k].deep_view(),
        decreases a@.len() - i,
    {
        if !a[i].same(&b[i]) {
            assert(a.deep_view()[i as int] != b.deep_view()[i as int]);
            return false;
        }
        i = i + 1;
    }
    assert(a.deep_view() =~= b.deep_view());
    true
}

/// Does a string hold these characters?
pub fn is_text(s: &String, expected: &str) -> (r: bool)
    ensures
        r == (s@ == expected@),
{
    let t = String::from_str(expected);
    *s == t
}

/// The types that renderings name.
pub open spec fn types_named(texts: Seq<Seq<char>>) -> Seq<ValTypeView> {
    texts.map_values(|t: Seq<char>| type_named(t))
}

/// The types that renderings name.
pub fn name_types(texts: &Vec<String>) -> (r: Vec<ValType>)
    ensures
        r.deep_view() == types_named(texts.deep_view()),
{
    let mut r: Vec<ValType> = Vec::new();
    let mut i: usize = 0;
    while i < texts.len()
        invariant
            i <= texts@.len(),
            r@.len() == i,
            forall|k: int|
                0 <= k < i ==> (#[trigger] r@[k]).deep_view() == type_named(texts@[k]@),
        decreases texts@.len() - i,
    {
        r.push(ValType::named(&texts[i]));
        i = i + 1;
    }
    assert(r.deep_view() =~= types_named(texts.deep_view()));
    r
}

/// A function signature.
#[derive(Debug, Clone, PartialEq, Eq)]
pub struct FuncType {
    /// What it takes.
    pub params: Vec<ValType>,
    /// What it returns.
    pub results: Vec<ValType>,
}

/// A function signature, its types viewed.
pub struct FuncTypeView {
    /// What it takes.
    pub params: Seq<ValTypeView>,
    /// What it returns.
    pub results: Seq<ValTypeView>,
}

impl DeepView for FuncType {
    type V = FuncTypeView;

    open spec fn deep_view(&self) -> FuncTypeView {
        FuncTypeView { params: self.params.deep_view(), results: self.results.deep_view() }
    }
}

impl FuncType {
    /// What the function takes.
    pub fn params(&self) -> (r: &[ValType])
        ensures
            r@ == self.params@,
    {
        self.params.as_slice()
    }

    /// What the function returns.
    pub fn results(&self) -> (r: &[ValType])
        ensures
            r@ == self.results@,
    {
        self.results.as_slice()
    }

    /// Compare two signatures.
    pub fn same(&self, other: &FuncType) -> (r: bool)
        ensures
            r == (self.deep_view() == other.deep_view()),
    {
        same_types(&self.params, &other.params) && same_types(&self.results, &other.results)
    }
}

/// What an import brings in.
#[derive(Debug, Clone, PartialEq, Eq)]
pub enum ImportType {
    /// A function of a type index.
    Func(u32),
    /// A table.
    Table,
    /// A memory.
    Memory,
    /// A global, with the rendering of its type.
    Global(String),
    /// A tag.
    Tag,
    /// A function of exactly a type index.
    FuncExact(u32),
}

/// What an import brings in, viewed.
pub enum ImportTypeView {
    /// A function of a type index.
    Func(u32),
    /// A table.
    Table,
    /// A memory.
    Memory,
    /// A global, with the rendering of its type.
    Global(Seq<char>),
    /// A tag.
    Tag,
    /// A function of exactly a type index.
    FuncExact(u32),
}

impl ImportType {
    /// The same again.
    pub fn duplicate(&self) -> (r: ImportType)
        ensures
            r.deep_view() == self.deep_view(),
    {
        match self {
            ImportType::Func(i) => ImportType::Func(*i),
            ImportType::Table => ImportType::Table,
            ImportType::Memory => ImportType::Memory,
            ImportType::Global(t) => ImportType::Global(t.clone()),
            ImportType::Tag => ImportType::Tag,
            ImportType::FuncExact(i) => ImportType::FuncExact(*i),
        }
    }
}

impl DeepView for ImportType {
    type V = ImportTypeView;

    open spec fn deep_view(&self) -> ImportTypeView {
        match *self {
            ImportType::Func(i) => ImportTypeView::Func(i),
            ImportType::Table => ImportTypeView::Table,
            ImportType::Memory => ImportTypeView::Memory,
            ImportType::Global(t) => ImportTypeView::Global(t@),
            ImportType::Tag => ImportTypeView::Tag,
            ImportType::FuncExact(i) => ImportTypeView::FuncExact(i),
        }
    }
}

/// A memory declaration.
#[derive(Debug, Clone, Copy, PartialEq, Eq, Structural)]
pub struct MemoryType {
    /// Is it a 64-bit memory?
    pub memory64: bool,
    /// Is it shared?
    pub shared: bool,
    /// Pages at the start.
    pub initial: u64,
    /// The ceiling, if declared.
    pub maximum: Option<u64>,
    /// A page size other than the standard one.
    pub page_size_log2: Option<u32>,
}

impl DeepView for MemoryType {
    type V = MemoryType;

    open spec fn deep_view(&self) -> MemoryType {
        *self
    }
}

/// A table declaration.
#[derive(Debug, Clone, Copy, PartialEq, Eq, Structural)]
pub struct TableType {
    /// Does it hold functions?
    pub holds_functions: bool,
    /// Entries at the start.
    pub initial: u64,
    /// The ceiling, if declared.
    pub maximum: Option<u64>,
}

impl DeepView for TableType {
    type V = TableType;

    open spec fn deep_view(&self) -> TableType {
        *self
    }
}

/// A range of a binary.
#[derive(Debug, Clone, Copy, PartialEq, Eq, Structural)]
pub struct Span {
    /// The first byte.
    pub start: usize,
    /// One past the last.
    pub end: usize,
}

impl DeepView for Span {
    type V = Span;

    open spec fn deep_view(&self) -> Span {
        *self
    }
}

/// The bytes of a range of a module.
pub open spec fn slice_of(module: Seq<u8>, s: Span) -> Seq<u8> {
    module.subrange(s.start as int, s.end as int)
}

/// Does a range lie within the bytes that start at `at`?
pub open spec fn span_within(s: Span, at: int, len: int) -> bool {
    at <= s.start <= s.end <= at + len
}

/// A global declaration.
#[derive(Debug, Clone, PartialEq, Eq)]
pub struct GlobalType {
    /// The rendering of the type it holds.
    pub content: String,
    /// May it be written?
    pub mutable: bool,
    /// Where its initializer is.
    pub init: Span,
}

/// A global declaration, viewed.
pub struct GlobalTypeView {
    /// The rendering of the type it holds.
    pub content: Seq<char>,
    /// May it be written?
    pub mutable: bool,
    /// Where its initializer is.
    pub init: Span,
}

impl DeepView for GlobalType {
    type V = GlobalTypeView;

    open spec fn deep_view(&self) -> GlobalTypeView {
        GlobalTypeView {
            content: self.content@,
            mutable: self.mutable,
            init: self.init,
        }
    }
}

/// What an export names.
#[derive(Debug, Clone, Copy, PartialEq, Eq, Structural)]
pub enum ExternalKind {
    /// A function.
    Func,
    /// A table.
    Table,
    /// A memory.
    Memory,
    /// A global.
    Global,
    /// A tag.
    Tag,
    /// A function, by its exact type.
    FuncExact,
}

/// An export.
#[derive(Debug, Clone, PartialEq, Eq)]
pub struct Export {
    /// Its name.
    pub name: String,
    /// What it names.
    pub kind: ExternalKind,
    /// Which one.
    pub index: u32,
}

/// An export, viewed.
pub struct ExportView {
    /// Its name.
    pub name: Seq<char>,
    /// What it names.
    pub kind: ExternalKind,
    /// Which one.
    pub index: u32,
}

impl DeepView for Export {
    type V = ExportView;

    open spec fn deep_view(&self) -> ExportView {
        ExportView { name: self.name@, kind: self.kind, index: self.index }
    }
}

/// When an element segment is copied.
#[derive(Debug, Clone, Copy, PartialEq, Eq, Structural)]
pub enum ElementKind {
    /// On request.
    Passive,
    /// At instantiation.
    Active {
        /// Which table, if named.
        table_index: Option<u32>,
        /// Where the offset expression is.
        offset: Span,
    },
    /// Never.
    Declared,
}

/// What an element segment lists.
#[derive(Debug, Clone, Copy, PartialEq, Eq, Structural)]
pub enum ElementItems {
    /// Function indices, in this range.
    Functions(Span),
    /// Expressions, in this range.
    Expressions(Span),
}

impl DeepView for ElementKind {
    type V = ElementKind;

    open spec fn deep_view(&self) -> ElementKind {
        *self
    }
}

impl DeepView for ElementItems {
    type V = ElementItems;

    open spec fn deep_view(&self) -> ElementItems {
        *self
    }
}

/// Where a segment's items are.
pub open spec fn items_span(items: ElementItems) -> Span {
    match items {
        ElementItems::Functions(s) => s,
        ElementItems::Expressions(s) => s,
    }
}

/// A data segment.
#[derive(Debug, Clone, PartialEq, Eq)]
pub struct Data {
    /// Where the offset expression is, if the segment is copied at instantiation.
    pub offset: Option<Span>,
    /// The bytes.
    pub bytes: Vec<u8>,
}

/// A data segment, viewed.
pub struct DataView {
    /// Where the offset expression is, if the segment is copied at instantiation.
    pub offset: Option<Span>,
    /// The bytes.
    pub bytes: Seq<u8>,
}

impl DeepView for Data {
    type V = DataView;

    open spec fn deep_view(&self) -> DataView {
        DataView { offset: self.offset, bytes: self.bytes@ }
    }
}

/// What a part of a module is.
#[derive(Debug, Clone, Copy, PartialEq, Eq, Structural)]
pub enum PartKind {
    /// The type section.
    Types,
    /// The import section.
    Imports,
    /// The function section.
    Functions,
    /// The table section.
    Tables,
    /// The memory section.
    Memories,
    /// The tag section.
    Tags,
    /// The global section.
    Globals,
    /// The export section.
    Exports,
    /// The start section, naming a function.
    Start(u32),
    /// The element section.
    Elements,
    /// The data count section.
    DataCount(u32),
    /// The head of the code section, with the number of bodies that follow.
    CodeStart(u32),
    /// One function body.
    Body,
    /// The data section.
    Data,
    /// A section of a kind that is not known, by its number.
    Unknown(u8),
    /// Anything else: a custom section, or the beginning or the end.
    Other,
}

impl DeepView for PartKind {
    type V = PartKind;

    open spec fn deep_view(&self) -> PartKind {
        *self
    }
}

/// Does a part's range delimit the bytes its reader is made from?
pub open spec fn is_delimited(kind: PartKind) -> bool {
    !(kind is Other) && !(kind is CodeStart)
}

/// Do ranges, where there are any, stand one behind another?
pub open spec fn in_order(spans: Seq<Option<Span>>) -> bool {
    forall|i: int, j: int|
        0 <= i < j < spans.len() && (#[trigger] spans[i]) is Some && (#[trigger] spans[j]) is Some
            ==> spans[i]->0.end <= spans[j]->0.start
}

/// The first bytes of every module: the magic and the version.
pub const HEADER: [u8; 8] = [0x00, 0x61, 0x73, 0x6d, 0x01, 0x00, 0x00, 0x00];

/// What the reader finds in a module, in order, up to its first error: what each part is and
/// where, and the error.
pub uninterp spec fn parts_of(module: Seq<u8>) -> (Seq<PartKind>, Seq<Span>, Option<Seq<char>>);

/// `wasmparser::Parser::parse_all` from offset zero: what each payload is, up to the first error.
/// In a core module the numbers up to thirteen are known.
#[verifier::external_body]
pub(crate) fn read_parts(module: &[u8]) -> (r: Vec<PartKind>)
    ensures
        r@ == parts_of(module@).0,
        HEADER@.is_prefix_of(module@) ==> forall|i: int|
            0 <= i < r@.len() ==> ((#[trigger] r@[i]) matches PartKind::Unknown(id) ==> id > 13),
{
    Parser::new(0).parse_all(module).map_while(|p| p.ok()).map(|p| match p {
        TypeSection(_) => PartKind::Types, ImportSection(_) => PartKind::Imports,
        FunctionSection(_) => PartKind::Functions, TableSection(_) => PartKind::Tables,
        MemorySection(_) => PartKind::Memories, TagSection(_) => PartKind::Tags,
        GlobalSection(_) => PartKind::Globals, ExportSection(_) => PartKind::Exports,
        StartSection { func, .. } => PartKind::Start(func),
        ElementSection(_) => PartKind::Elements, DataSection(_) => PartKind::Data,
        DataCountSection { count, .. } => PartKind::DataCount(count), CodeSectionEntry(_) => PartKind::Body,
        CodeSectionStart { count, .. } => PartKind::CodeStart(count),
        UnknownSection { id, .. } => PartKind::Unknown(id), _ => PartKind::Other }).collect()
}

/// The same walk: the range of each payload, that of a section or of a function body, and the
/// rendering of the error that ended it, if one did. The range of a delimited part lies within
/// the module.
#[verifier::external_body]
pub(crate) fn read_spans(module: &[u8]) -> (r: (Vec<Span>, Option<String>))
    ensures
        r.0@ == parts_of(module@).1,
        r.1.deep_view() == parts_of(module@).2,
        r.0@.len() == parts_of(module@).0.len(),
        forall|i: int|
            0 <= i < r.0@.len() && is_delimited(parts_of(module@).0[i]) ==> span_within(
                #[trigger] r.0@[i],
                0,
                module@.len() as int,
            ),
{
    let mut end = None;
    let payloads = wasmparser::Parser::new(0).parse_all(module).map_while(|p| p.map_err(|e| end = Some(e.to_string())).ok());
    let spans = payloads.map(|p| match (p.as_section(), p) {
        (Some((_, r)), _) => Span { start: r.start as usize, end: r.end as usize },
        (None, CodeSectionEntry(b)) => Span { start: b.range().start as usize, end: b.range().end as usize },
        _ => Span { start: 0, end: 0 },
    });
    (spans.collect(), end)
}

/// What reading a list gives: its items up to the first error, and the error, whose rendering
/// tells where in the module it is.
pub open spec fn read_to<T>(found: (Seq<T>, bool), fault: Seq<char>) -> (Seq<T>, Option<Seq<char>>) {
    (
        found.0,
        if found.1 {
            None
        } else {
            Some(fault)
        },
    )
}

/// The function types that a type section lists, as renderings of what each takes and returns, and
/// whether they are all of it.
pub uninterp spec fn types_in(
    bytes: Seq<u8>,
) -> (Seq<Option<(Seq<Seq<char>>, Seq<Seq<char>>)>>, bool);

/// The error that ends reading a type section, where it begins at an offset of the module.
pub uninterp spec fn types_fault(bytes: Seq<u8>, at: u64) -> Seq<char>;

/// The function types that a type section lists, as renderings of what each takes and returns.
pub open spec fn types_of(
    bytes: Seq<u8>,
    at: u64,
) -> (Seq<Option<(Seq<Seq<char>>, Seq<Seq<char>>)>>, Option<Seq<char>>) {
    read_to(types_in(bytes), types_fault(bytes, at))
}

/// `wasmparser::TypeSectionReader`: for each type, recursion groups flattened, the `Debug`
/// renderings of its parameters and results, or nothing if it is no function type.
#[verifier::external_body]
pub(crate) fn read_types(bytes: &[u8], at: u64) -> (r: (Vec<Option<(Vec<String>, Vec<String>)>>, Option<String>))
    requires
        at + bytes@.len() <= u64::MAX,
    ensures
        r.deep_view() == read_to(types_in(bytes@), types_fault(bytes@, at)),
{
    let mut end = None;
    let list = |t: &[wasmparser::ValType]| t.iter().map(|t| format!("{t:?}")).collect();
    let reader = wasmparser::TypeSectionReader::new(BinaryReader::new(bytes, at)).map_err(|e| end = Some(e.to_string()));
    let items = reader.into_iter().flatten().map_while(|x| x.map_err(|e| end = Some(e.to_string())).ok());
    (items.flat_map(|g| g.into_types()).map(|s| match s.composite_type.inner {
        wasmparser::CompositeInnerType::Func(f) => Some((list(f.params()), list(f.results()))),
        _ => None }).collect(), end)
}

/// The module and name of each import that an import section lists, and whether they are all of it.
pub uninterp spec fn import_names_in(bytes: Seq<u8>) -> (Seq<(Seq<char>, Seq<char>)>, bool);

/// The error that ends reading an import section, where it begins at an offset of the module.
pub uninterp spec fn import_names_fault(bytes: Seq<u8>, at: u64) -> Seq<char>;

/// The module and name of each import that an import section lists.
pub open spec fn import_names_of(
    bytes: Seq<u8>,
    at: u64,
) -> (Seq<(Seq<char>, Seq<char>)>, Option<Seq<char>>) {
    read_to(import_names_in(bytes), import_names_fault(bytes, at))
}

/// `wasmparser::ImportSectionReader::into_imports`: the module and name of each import, groups
/// flattened.
#[verifier::external_body]
pub(crate) fn read_import_names(bytes: &[u8], at: u64) -> (r: (
    Vec<(String, String)>,
    Option<String>,
))
    requires
        at + bytes@.len() <= u64::MAX,
    ensures
        r.deep_view() == read_to(import_names_in(bytes@), import_names_fault(bytes@, at)),
{
    let mut end = None;
    let reader = wasmparser::ImportSectionReader::new(BinaryReader::new(bytes, at)).map_err(|e| end = Some(e.to_string()));
    let items = reader.into_iter().flat_map(|r| r.into_imports()).map_while(|x| x.map_err(|e| end = Some(e.to_string())).ok());
    (items.map(|i| (i.module.into(), i.name.into())).collect(), end)
}

/// What each import that an import section lists brings in.
pub uninterp spec fn import_types_in(bytes: Seq<u8>) -> Seq<ImportTypeView>;

/// `wasmparser::ImportSectionReader::into_imports`: what each import brings in, groups flattened,
/// one for each name.
#[verifier::external_body]
pub(crate) fn read_import_types(bytes: &[u8]) -> (r: Vec<ImportType>)
    ensures
        r.deep_view() == import_types_in(bytes@),
        r@.len() == import_names_in(bytes@).0.len(),
{
    let reader = wasmparser::ImportSectionReader::new(BinaryReader::new(bytes, 0));
    reader.into_iter().flat_map(|r| r.into_imports()).map_while(|x| x.ok()).map(|i| match i.ty {
        TypeRef::Func(f) => ImportType::Func(f), TypeRef::Table(_) => ImportType::Table,
        TypeRef::Memory(_) => ImportType::Memory, TypeRef::Global(g) => ImportType::Global(format!("{:?}", g.content_type)),
        TypeRef::Tag(_) => ImportType::Tag, TypeRef::FuncExact(f) => ImportType::FuncExact(f),
    }).collect()
}

/// The indices that a counted list holds, and whether they are all of it.
pub uninterp spec fn indices_in(bytes: Seq<u8>) -> (Seq<u32>, bool);

/// The error that ends reading a counted list of indices, where it begins at an offset of the
/// module.
pub uninterp spec fn indices_fault(bytes: Seq<u8>, at: u64) -> Seq<char>;

/// The indices that a counted list holds.
pub open spec fn indices_of(bytes: Seq<u8>, at: u64) -> (Seq<u32>, Option<Seq<char>>) {
    read_to(indices_in(bytes), indices_fault(bytes, at))
}

/// `wasmparser::FunctionSectionReader`: a counted list of indices, as in a function section.
#[verifier::external_body]
pub(crate) fn read_indices(bytes: &[u8], at: u64) -> (r: (Vec<u32>, Option<String>))
    requires
        at + bytes@.len() <= u64::MAX,
    ensures
        r.deep_view() == read_to(indices_in(bytes@), indices_fault(bytes@, at)),
{
    let mut end = None;
    let reader = wasmparser::FunctionSectionReader::new(BinaryReader::new(bytes, at)).map_err(|e| end = Some(e.to_string()));
    let items = reader.into_iter().flatten().map_while(|x| x.map_err(|e| end = Some(e.to_string())).ok());
    (items.collect(), end)
}

/// The memories that a memory section declares, and whether they are all of it.
pub uninterp spec fn memories_in(bytes: Seq<u8>) -> (Seq<MemoryType>, bool);

/// The error that ends reading a memory section, where it begins at an offset of the module.
pub uninterp spec fn memories_fault(bytes: Seq<u8>, at: u64) -> Seq<char>;

/// The memories that a memory section declares.
pub open spec fn memories_of(bytes: Seq<u8>, at: u64) -> (Seq<MemoryType>, Option<Seq<char>>) {
    read_to(memories_in(bytes), memories_fault(bytes, at))
}

/// `wasmparser::MemorySectionReader`: the section's memories.
#[verifier::external_body]
pub(crate) fn read_memories(bytes: &[u8], at: u64) -> (r: (Vec<MemoryType>, Option<String>))
    requires
        at + bytes@.len() <= u64::MAX,
    ensures
        r.deep_view() == read_to(memories_in(bytes@), memories_fault(bytes@, at)),
{
    let mut end = None;
    let reader = wasmparser::MemorySectionReader::new(BinaryReader::new(bytes, at)).map_err(|e| end = Some(e.to_string()));
    let items = reader.into_iter().flatten().map_while(|x| x.map_err(|e| end = Some(e.to_string())).ok());
    (items.map(|m| MemoryType { memory64: m.memory64, shared: m.shared, initial: m.initial, maximum: m.maximum, page_size_log2: m.page_size_log2 }).collect(), end)
}

/// The tables that a table section declares, and whether they are all of it.
pub uninterp spec fn tables_in(bytes: Seq<u8>) -> (Seq<TableType>, bool);

/// The error that ends reading a table section, where it begins at an offset of the module.
pub uninterp spec fn tables_fault(bytes: Seq<u8>, at: u64) -> Seq<char>;

/// The tables that a table section declares.
pub open spec fn tables_of(bytes: Seq<u8>, at: u64) -> (Seq<TableType>, Option<Seq<char>>) {
    read_to(tables_in(bytes), tables_fault(bytes, at))
}

/// `wasmparser::TableSectionReader`: the section's tables, and whether each holds functions.
#[verifier::external_body]
pub(crate) fn read_tables(bytes: &[u8], at: u64) -> (r: (Vec<TableType>, Option<String>))
    requires
        at + bytes@.len() <= u64::MAX,
    ensures
        r.deep_view() == read_to(tables_in(bytes@), tables_fault(bytes@, at)),
{
    let mut end = None;
    let reader = wasmparser::TableSectionReader::new(BinaryReader::new(bytes, at)).map_err(|e| end = Some(e.to_string()));
    let items = reader.into_iter().flatten().map_while(|x| x.map_err(|e| end = Some(e.to_string())).ok());
    (items.map(|t| TableType { holds_functions: t.ty.element_type.is_func_ref(), initial: t.ty.initial, maximum: t.ty.maximum }).collect(), end)
}

/// Where the initializers are of the tables that a table section declares, those that have one.
pub uninterp spec fn table_inits_in(bytes: Seq<u8>) -> Seq<Option<Span>>;

/// `wasmparser::TableSectionReader`: the range of each table's initializer, if it has one. It lies
/// within the section, behind those before it.
#[verifier::external_body]
pub(crate) fn read_table_inits(bytes: &[u8]) -> (r: Vec<Option<Span>>)
    ensures
        r@ == table_inits_in(bytes@),
        in_order(r@),
        forall|i: int|
            0 <= i < r@.len() ==> ((#[trigger] r@[i]) matches Some(s) ==> span_within(
                s,
                0,
                bytes@.len() as int,
            )),
{
    let span = |r: std::ops::Range<u64>| Span { start: r.start as usize, end: r.end as usize };
    let reader = wasmparser::TableSectionReader::new(BinaryReader::new(bytes, 0));
    reader.into_iter().flatten().map_while(|x| x.ok()).map(|t| match t.init {
        wasmparser::TableInit::RefNull => None,
        wasmparser::TableInit::Expr(e) => Some(span(e.get_binary_reader().range())),
    }).collect()
}

/// The globals that a global section declares, and whether they are all of it.
pub uninterp spec fn globals_in(bytes: Seq<u8>) -> (Seq<GlobalTypeView>, bool);

/// The error that ends reading a global section, where it begins at an offset of the module.
pub uninterp spec fn globals_fault(bytes: Seq<u8>, at: u64) -> Seq<char>;

/// The globals that a global section declares.
pub open spec fn globals_of(bytes: Seq<u8>, at: u64) -> (Seq<GlobalTypeView>, Option<Seq<char>>) {
    read_to(globals_in(bytes), globals_fault(bytes, at))
}

/// `wasmparser::GlobalSectionReader`: the section's globals. An initializer's range lies within
/// the section, behind those before it.
#[verifier::external_body]
pub(crate) fn read_globals(bytes: &[u8], at: u64) -> (r: (Vec<GlobalType>, Option<String>))
    requires
        at + bytes@.len() <= u64::MAX,
    ensures
        r.deep_view() == read_to(globals_in(bytes@), globals_fault(bytes@, at)),
        forall|i: int|
            0 <= i < r.0@.len() ==> span_within(
                (#[trigger] r.0@[i]).init,
                0,
                bytes@.len() as int,
            ),
        in_order(r.0@.map_values(|g: GlobalType| Some(g.init))),
{
    let mut end = None;
    let reader = wasmparser::GlobalSectionReader::new(BinaryReader::new(bytes, at)).map_err(|e| end = Some(e.to_string()));
    let items = reader.into_iter().flatten().map_while(|x| x.map_err(|e| end = Some(e.to_string())).ok());
    (items.map(|g| { let s = g.init_expr.get_binary_reader().range(); GlobalType { content: format!("{:?}", g.ty.content_type), mutable: g.ty.mutable, init: Span { start: (s.start - at) as usize, end: (s.end - at) as usize } } }).collect(), end)
}

/// The exports that an export section lists, and whether they are all of it.
pub uninterp spec fn exports_in(bytes: Seq<u8>) -> (Seq<ExportView>, bool);

/// The error that ends reading an export section, where it begins at an offset of the module.
pub uninterp spec fn exports_fault(bytes: Seq<u8>, at: u64) -> Seq<char>;

/// The exports that an export section lists.
pub open spec fn exports_of(bytes: Seq<u8>, at: u64) -> (Seq<ExportView>, Option<Seq<char>>) {
    read_to(exports_in(bytes), exports_fault(bytes, at))
}

/// `wasmparser::ExportSectionReader`: the section's exports.
#[verifier::external_body]
pub(crate) fn read_exports(bytes: &[u8], at: u64) -> (r: (Vec<Export>, Option<String>))
    requires
        at + bytes@.len() <= u64::MAX,
    ensures
        r.deep_view() == read_to(exports_in(bytes@), exports_fault(bytes@, at)),
{
    let mut end = None;
    let reader = wasmparser::ExportSectionReader::new(BinaryReader::new(bytes, at)).map_err(|e| end = Some(e.to_string()));
    let items = reader.into_iter().flatten().map_while(|x| x.map_err(|e| end = Some(e.to_string())).ok());
    (items.map(|e| Export { name: e.name.into(), index: e.index, kind: match e.kind {
        Extern::Func => ExternalKind::Func, Extern::Table => ExternalKind::Table,
        Extern::Memory => ExternalKind::Memory, Extern::Global => ExternalKind::Global,
        Extern::Tag => ExternalKind::Tag, Extern::FuncExact => ExternalKind::FuncExact } }).collect(), end)
}

/// When each segment that an element section lists is copied, and whether they are all of it.
pub uninterp spec fn element_kinds_in(bytes: Seq<u8>) -> (Seq<ElementKind>, bool);

/// The error that ends reading an element section, where it begins at an offset of the module.
pub uninterp spec fn element_kinds_fault(bytes: Seq<u8>, at: u64) -> Seq<char>;

/// When each segment that an element section lists is copied.
pub open spec fn element_kinds_of(
    bytes: Seq<u8>,
    at: u64,
) -> (Seq<ElementKind>, Option<Seq<char>>) {
    read_to(element_kinds_in(bytes), element_kinds_fault(bytes, at))
}

/// `wasmparser::ElementSectionReader`: when each segment is copied. The ranges lie within the
/// section.
#[verifier::external_body]
pub(crate) fn read_element_kinds(bytes: &[u8], at: u64) -> (r: (Vec<ElementKind>, Option<String>))
    requires
        at + bytes@.len() <= u64::MAX,
    ensures
        r.deep_view() == read_to(element_kinds_in(bytes@), element_kinds_fault(bytes@, at)),
        forall|i: int|
            0 <= i < r.0@.len() ==> ((#[trigger] r.0@[i]) matches ElementKind::Active { offset, .. }
                ==> span_within(offset, 0, bytes@.len() as int)),
{
    let mut end = None;
    let span = |r: std::ops::Range<u64>| Span { start: (r.start - at) as usize, end: (r.end - at) as usize };
    let reader = wasmparser::ElementSectionReader::new(BinaryReader::new(bytes, at)).map_err(|e| end = Some(e.to_string()));
    let items = reader.into_iter().flatten().map_while(|x| x.map_err(|e| end = Some(e.to_string())).ok());
    (items.map(|e| match e.kind { Mode::Passive => ElementKind::Passive, Mode::Declared => ElementKind::Declared,
        Mode::Active { table_index, offset_expr } => ElementKind::Active { table_index, offset: span(offset_expr.get_binary_reader().range()) } }).collect(), end)
}

/// What each segment that an element section lists holds.
pub uninterp spec fn element_items_in(bytes: Seq<u8>) -> Seq<ElementItems>;

/// `wasmparser::ElementSectionReader`: what each segment lists. The ranges lie within the section.
#[verifier::external_body]
pub(crate) fn read_element_items(bytes: &[u8]) -> (r: Vec<ElementItems>)
    ensures
        r.deep_view() == element_items_in(bytes@),
        r@.len() == element_kinds_in(bytes@).0.len(),
        forall|i: int|
            0 <= i < r@.len() ==> span_within(
                items_span(#[trigger] r@[i]),
                0,
                bytes@.len() as int,
            ),
{
    let span = |r: std::ops::Range<u64>| Span { start: r.start as usize, end: r.end as usize };
    let reader = wasmparser::ElementSectionReader::new(BinaryReader::new(bytes, 0));
    reader.into_iter().flatten().map_while(|x| x.ok()).map(|e| match e.items { Listed::Functions(f) => ElementItems::Functions(span(f.range())),
        Listed::Expressions(_, x) => ElementItems::Expressions(span(x.range())) }).collect()
}

/// The segments that a data section lists, and whether they are all of it.
pub uninterp spec fn data_in(bytes: Seq<u8>) -> (Seq<DataView>, bool);

/// The error that ends reading a data section, where it begins at an offset of the module.
pub uninterp spec fn data_fault(bytes: Seq<u8>, at: u64) -> Seq<char>;

/// The segments that a data section lists.
pub open spec fn data_of(bytes: Seq<u8>, at: u64) -> (Seq<DataView>, Option<Seq<char>>) {
    read_to(data_in(bytes), data_fault(bytes, at))
}

/// `wasmparser::DataSectionReader`: the section's segments. An offset expression's range lies
/// within the section, behind those before it.
#[verifier::external_body]
pub(crate) fn read_data(bytes: &[u8], at: u64) -> (r: (Vec<Data>, Option<String>))
    requires
        at + bytes@.len() <= u64::MAX,
    ensures
        r.deep_view() == read_to(data_in(bytes@), data_fault(bytes@, at)),
        forall|i: int|
            0 <= i < r.0@.len() ==> ((#[trigger] r.0@[i]).offset matches Some(s) ==> span_within(
                s,
                0,
                bytes@.len() as int,
            )),
        in_order(r.0@.map_values(|d: Data| d.offset)),
{
    let mut end = None;
    let span = |r: std::ops::Range<u64>| Span { start: (r.start - at) as usize, end: (r.end - at) as usize };
    let reader = wasmparser::DataSectionReader::new(BinaryReader::new(bytes, at)).map_err(|e| end = Some(e.to_string()));
    let items = reader.into_iter().flatten().map_while(|x| x.map_err(|e| end = Some(e.to_string())).ok());
    (items.map(|d| Data { bytes: d.data.to_vec(), offset: match d.kind { wasmparser::DataKind::Passive => None,
        wasmparser::DataKind::Active { offset_expr, .. } => Some(span(offset_expr.get_binary_reader().range())) } }).collect(), end)
}

/// The runs of locals that a function body declares, and whether they are all of it.
pub uninterp spec fn locals_in(bytes: Seq<u8>) -> (Seq<(u32, Seq<char>)>, bool);

/// The error that ends reading the locals of a body, where it begins at an offset of the module.
pub uninterp spec fn locals_fault(bytes: Seq<u8>, at: u64) -> Seq<char>;

/// The runs of locals that a function body declares.
pub open spec fn locals_of(bytes: Seq<u8>, at: u64) -> (Seq<(u32, Seq<char>)>, Option<Seq<char>>) {
    read_to(locals_in(bytes), locals_fault(bytes, at))
}

/// `wasmparser::FunctionBody::get_locals_reader`: the body's declared locals, run-length
/// encoded, each run's type by its `Debug` rendering.
#[verifier::external_body]
pub(crate) fn read_locals(bytes: &[u8], at: u64) -> (r: (Vec<(u32, String)>, Option<String>))
    requires
        at + bytes@.len() <= u64::MAX,
    ensures
        r.deep_view() == read_to(locals_in(bytes@), locals_fault(bytes@, at)),
{
    let mut end = None;
    let body = wasmparser::FunctionBody::new(BinaryReader::new(bytes, at));
    let reader = body.get_locals_reader().map_err(|e| end = Some(e.to_string()));
    let items = reader.into_iter().flatten().map_while(|x| x.map_err(|e| end = Some(e.to_string())).ok());
    (items.map(|(n, t)| (n, format!("{t:?}"))).collect(), end)
}

/// Where a body's instructions begin, past its locals, if that can be told.
pub uninterp spec fn code_start_in(bytes: Seq<u8>) -> Option<usize>;

/// Why it cannot be told, where the body begins at an offset of the module.
pub uninterp spec fn code_start_fault(bytes: Seq<u8>, at: u64) -> Seq<char>;

/// Where a body's instructions begin, past its locals, or why that cannot be told.
pub open spec fn code_start_of(bytes: Seq<u8>, at: u64) -> Result<usize, Seq<char>> {
    match code_start_in(bytes) {
        Some(start) => Ok(start),
        None => Err(code_start_fault(bytes, at)),
    }
}

/// `wasmparser::FunctionBody::get_binary_reader_for_operators`: how many bytes its declared
/// locals take, at most all of them.
#[verifier::external_body]
pub(crate) fn read_code_start(bytes: &[u8], at: u64) -> (r: Result<usize, String>)
    requires
        at + bytes@.len() <= u64::MAX,
    ensures
        match (r, code_start_in(bytes@)) {
            (Ok(n), Some(m)) => n == m && n <= bytes@.len(),
            (Err(e), None) => e@ == code_start_fault(bytes@, at),
            _ => false,
        },
{
    let body = wasmparser::FunctionBody::new(BinaryReader::new(bytes, at));
    let reader = body.get_binary_reader_for_operators().map_err(|e| e.to_string())?;
    Ok((reader.original_position() - at) as usize)
}

/// Where each instruction that a run of bytes holds begins.
pub uninterp spec fn operator_starts_in(bytes: Seq<u8>) -> Seq<usize>;

/// `wasmparser::OperatorsReader::read_with_offset`, until it fails: where each instruction
/// begins, the first one at the start and each behind the one before it.
#[verifier::external_body]
pub(crate) fn read_operator_starts(bytes: &[u8]) -> (r: Vec<usize>)
    ensures
        r@ == operator_starts_in(bytes@),
        r@.len() == operators_in(bytes@).0.len(),
        r@.len() > 0 ==> r@[0] == 0,
        forall|i: int, j: int| 0 <= i < j < r@.len() ==> r@[i] < r@[j],
        forall|i: int| 0 <= i < r@.len() ==> (#[trigger] r@[i]) < bytes@.len(),
{
    let mut reader = OperatorsReader::new(BinaryReader::new(bytes, 0));
    let mut all: Vec<usize> = Vec::new();
    while let Ok((_, start)) = reader.read_with_offset() {
        all.push(start as usize);
    }
    all
}

/// The instructions that a run of bytes holds, and whether they end where the bytes do.
pub uninterp spec fn operators_in(bytes: Seq<u8>) -> (Seq<Operator>, bool);

/// The rendering of the error that reading on gives, where the bytes begin at an offset of the
/// module.
pub uninterp spec fn operators_fault(bytes: Seq<u8>, at: u64) -> Seq<char>;

/// `wasmparser::OperatorsReader::read`, until it fails: whether no byte was left before the
/// failure,
/// and its rendering.
#[verifier::external_body]
fn read_operators_end(bytes: &[u8], at: u64) -> (r: (bool, String))
    requires
        at + bytes@.len() <= u64::MAX,
    ensures
        r.0 == operators_in(bytes@).1,
        r.1@ == operators_fault(bytes@, at),
{
    let mut reader = OperatorsReader::new(BinaryReader::new(bytes, at));
    loop {
        let done = reader.eof();
        if let Err(e) = reader.read() {
            return (done, e.to_string());
        }
    }
}

/// A group of instructions that is read together.
pub open spec fn in_narrow_comparisons(op: Operator) -> bool {
    match op {
        Operator::I32Eq
        | Operator::I32Ne
        | Operator::I32LtS
        | Operator::I32LtU
        | Operator::I32GtS
        | Operator::I32GtU
        | Operator::I32LeS
        | Operator::I32LeU
        | Operator::I32GeS
        | Operator::I32GeU
        | Operator::I32Eqz
        | Operator::F32Eq
        | Operator::F32Ne
        | Operator::F32Lt
        | Operator::F32Gt
        | Operator::F32Le
        | Operator::F32Ge => true,
        _ => false,
    }
}

/// A group of instructions that is read together.
pub open spec fn in_wide_comparisons(op: Operator) -> bool {
    match op {
        Operator::I64Eq
        | Operator::I64Ne
        | Operator::I64LtS
        | Operator::I64LtU
        | Operator::I64GtS
        | Operator::I64GtU
        | Operator::I64LeS
        | Operator::I64LeU
        | Operator::I64GeS
        | Operator::I64GeU
        | Operator::I64Eqz
        | Operator::F64Eq
        | Operator::F64Ne
        | Operator::F64Lt
        | Operator::F64Gt
        | Operator::F64Le
        | Operator::F64Ge => true,
        _ => false,
    }
}

/// A group of instructions that is read together.
pub open spec fn in_i32_arithmetic(op: Operator) -> bool {
    match op {
        Operator::I32Add
        | Operator::I32Sub
        | Operator::I32Mul
        | Operator::I32DivS
        | Operator::I32DivU
        | Operator::I32RemS
        | Operator::I32RemU
        | Operator::I32And
        | Operator::I32Or
        | Operator::I32Xor
        | Operator::I32Shl
        | Operator::I32ShrS
        | Operator::I32ShrU
        | Operator::I32Rotl
        | Operator::I32Rotr
        | Operator::I32Clz
        | Operator::I32Ctz => true,
        _ => false,
    }
}

/// A group of instructions that is read together.
pub open spec fn in_i64_arithmetic(op: Operator) -> bool {
    match op {
        Operator::I64Add
        | Operator::I64Sub
        | Operator::I64Mul
        | Operator::I64DivS
        | Operator::I64DivU
        | Operator::I64RemS
        | Operator::I64RemU
        | Operator::I64And
        | Operator::I64Or
        | Operator::I64Xor
        | Operator::I64Shl
        | Operator::I64ShrS
        | Operator::I64ShrU
        | Operator::I64Rotl
        | Operator::I64Rotr
        | Operator::I64Clz
        | Operator::I64Ctz => true,
        _ => false,
    }
}

/// A group of instructions that is read together.
pub open spec fn in_f32_arithmetic(op: Operator) -> bool {
    match op {
        Operator::F32Abs
        | Operator::F32Neg
        | Operator::F32Ceil
        | Operator::F32Floor
        | Operator::F32Trunc
        | Operator::F32Nearest
        | Operator::F32Sqrt
        | Operator::F32Add
        | Operator::F32Sub
        | Operator::F32Mul
        | Operator::F32Div
        | Operator::F32Min
        | Operator::F32Max
        | Operator::F32Copysign => true,
        _ => false,
    }
}

/// A group of instructions that is read together.
pub open spec fn in_f64_arithmetic(op: Operator) -> bool {
    match op {
        Operator::F64Abs
        | Operator::F64Neg
        | Operator::F64Ceil
        | Operator::F64Floor
        | Operator::F64Trunc
        | Operator::F64Nearest
        | Operator::F64Sqrt
        | Operator::F64Add
        | Operator::F64Sub
        | Operator::F64Mul
        | Operator::F64Div
        | Operator::F64Min
        | Operator::F64Max
        | Operator::F64Copysign => true,
        _ => false,
    }
}

/// A group of instructions that is read together.
pub open spec fn in_truncations(op: Operator) -> bool {
    match op {
        Operator::I32TruncF32S
        | Operator::I32TruncF32U
        | Operator::I32TruncF64S
        | Operator::I32TruncF64U
        | Operator::I64TruncF32S
        | Operator::I64TruncF32U
        | Operator::I64TruncF64S
        | Operator::I64TruncF64U
        | Operator::I32TruncSatF32S
        | Operator::I32TruncSatF32U
        | Operator::I32TruncSatF64S
        | Operator::I32TruncSatF64U
        | Operator::I64TruncSatF32S
        | Operator::I64TruncSatF32U
        | Operator::I64TruncSatF64S
        | Operator::I64TruncSatF64U => true,
        _ => false,
    }
}

/// A group of instructions that is read together.
pub open spec fn in_conversions(op: Operator) -> bool {
    match op {
        Operator::F32ConvertI32S
        | Operator::F32ConvertI32U
        | Operator::F32ConvertI64S
        | Operator::F32ConvertI64U
        | Operator::F64ConvertI32S
        | Operator::F64ConvertI32U
        | Operator::F64ConvertI64S
        | Operator::F64ConvertI64U
        | Operator::I32ReinterpretF32
        | Operator::I64ReinterpretF64
        | Operator::F32ReinterpretI32
        | Operator::F64ReinterpretI64
        | Operator::I64ExtendI32S
        | Operator::I64ExtendI32U
        | Operator::F32DemoteF64
        | Operator::F64PromoteF32 => true,
        _ => false,
    }
}

/// A group of instructions that is read together.
pub open spec fn in_bit_operations(op: Operator) -> bool {
    match op {
        Operator::I32Popcnt
        | Operator::I64Popcnt
        | Operator::I32Extend8S
        | Operator::I32Extend16S
        | Operator::I64Extend8S
        | Operator::I64Extend16S
        | Operator::I64Extend32S
        | Operator::I32WrapI64 => true,
        _ => false,
    }
}

/// A group of instructions that is read together.
pub open spec fn in_plain_control(op: Operator) -> bool {
    match op {
        Operator::Unreachable
        | Operator::Nop
        | Operator::Else
        | Operator::End
        | Operator::Return
        | Operator::Drop
        | Operator::Select => true,
        _ => false,
    }
}

/// A group of instructions that is read together.
pub open spec fn in_float_accesses(op: Operator) -> bool {
    match op {
        Operator::F32Load { .. }
        | Operator::F64Load { .. }
        | Operator::F32Store { .. }
        | Operator::F64Store { .. }
        | Operator::I32Load { .. }
        | Operator::I32Store { .. } => true,
        _ => false,
    }
}

/// A group of instructions that is read together.
pub open spec fn in_i32_accesses(op: Operator) -> bool {
    match op {
        Operator::I32Load8S { .. }
        | Operator::I32Load8U { .. }
        | Operator::I32Load16S { .. }
        | Operator::I32Load16U { .. }
        | Operator::I32Store8 { .. }
        | Operator::I32Store16 { .. } => true,
        _ => false,
    }
}

/// A group of instructions that is read together.
pub open spec fn in_i64_loads(op: Operator) -> bool {
    match op {
        Operator::I64Load8S { .. }
        | Operator::I64Load8U { .. }
        | Operator::I64Load16S { .. }
        | Operator::I64Load16U { .. }
        | Operator::I64Load32S { .. }
        | Operator::I64Load32U { .. } => true,
        _ => false,
    }
}

/// A group of instructions that is read together.
pub open spec fn in_i64_accesses(op: Operator) -> bool {
    match op {
        Operator::I64Load { .. }
        | Operator::I64Store { .. }
        | Operator::I64Store8 { .. }
        | Operator::I64Store16 { .. }
        | Operator::I64Store32 { .. } => true,
        _ => false,
    }
}

/// A group of instructions that is read together.
pub open spec fn in_blocks(op: Operator) -> bool {
    match op {
        Operator::Block { .. }
        | Operator::Loop { .. }
        | Operator::If { .. } => true,
        _ => false,
    }
}

/// A group of instructions that is read together.
pub open spec fn in_branches(op: Operator) -> bool {
    match op {
        Operator::Br { .. }
        | Operator::BrIf { .. }
        | Operator::BrTable { .. }
        | Operator::Call { .. }
        | Operator::CallIndirect { .. } => true,
        _ => false,
    }
}

/// A group of instructions that is read together.
pub open spec fn in_memory_control(op: Operator) -> bool {
    match op {
        Operator::MemorySize
        | Operator::MemoryGrow
        | Operator::MemoryFill
        | Operator::MemoryCopy
        | Operator::MemoryInit { .. }
        | Operator::DataDrop { .. }
        | Operator::ElemDrop { .. } => true,
        _ => false,
    }
}

/// A group of instructions that is read together.
pub open spec fn in_variables(op: Operator) -> bool {
    match op {
        Operator::LocalGet { .. }
        | Operator::LocalSet { .. }
        | Operator::LocalTee { .. }
        | Operator::GlobalGet { .. }
        | Operator::GlobalSet { .. }
        | Operator::I32Const { .. }
        | Operator::I64Const { .. }
        | Operator::F32Const { .. }
        | Operator::F64Const { .. } => true,
        _ => false,
    }
}

/// A group of instructions that is read together.
pub open spec fn in_table_instructions(op: Operator) -> bool {
    match op {
        Operator::RefNull { .. }
        | Operator::TableGet { .. }
        | Operator::TableSet { .. }
        | Operator::TableSize { .. }
        | Operator::TableGrow { .. }
        | Operator::TableFill { .. }
        | Operator::TableCopy { .. }
        | Operator::TableInit { .. } => true,
        _ => false,
    }
}

/// A group of instructions that is read together.
pub open spec fn in_rendered_instructions(op: Operator) -> bool {
    match op {
        Operator::RefIsNull { .. }
        | Operator::RefFunc { .. }
        | Operator::ReturnCall { .. }
        | Operator::TypedSelect { .. } => true,
        _ => false,
    }
}

/// `wasmparser::OperatorsReader::read`, until it fails: the instructions of one group, each at
/// its position.
#[verifier::external_body]
fn read_narrow_comparisons(bytes: &[u8], at: u64) -> (r: Vec<Option<Operator>>)
    requires
        at + bytes@.len() <= u64::MAX,
    ensures
        lists_group(r@, operators_in(bytes@).0, |op: Operator| in_narrow_comparisons(op)),
{
    let reader = OperatorsReader::new(BinaryReader::new(bytes, at));
    reader.into_iter().map_while(|op| op.ok()).map(|op| Some(match op {
        Parsed::I32Eq => Operator::I32Eq, Parsed::I32Ne => Operator::I32Ne, Parsed::I32LtS => Operator::I32LtS, Parsed::I32LtU => Operator::I32LtU,
        Parsed::I32GtS => Operator::I32GtS, Parsed::I32GtU => Operator::I32GtU, Parsed::I32LeS => Operator::I32LeS, Parsed::I32LeU => Operator::I32LeU,
        Parsed::I32GeS => Operator::I32GeS, Parsed::I32GeU => Operator::I32GeU, Parsed::I32Eqz => Operator::I32Eqz, Parsed::F32Eq => Operator::F32Eq,
        Parsed::F32Ne => Operator::F32Ne, Parsed::F32Lt => Operator::F32Lt, Parsed::F32Gt => Operator::F32Gt, Parsed::F32Le => Operator::F32Le,
        Parsed::F32Ge => Operator::F32Ge,
        _ => return None,
    })).collect()
}

/// `wasmparser::OperatorsReader::read`, until it fails: the instructions of one group, each at
/// its position.
#[verifier::external_body]
fn read_wide_comparisons(bytes: &[u8], at: u64) -> (r: Vec<Option<Operator>>)
    requires
        at + bytes@.len() <= u64::MAX,
    ensures
        lists_group(r@, operators_in(bytes@).0, |op: Operator| in_wide_comparisons(op)),
{
    let reader = OperatorsReader::new(BinaryReader::new(bytes, at));
    reader.into_iter().map_while(|op| op.ok()).map(|op| Some(match op {
        Parsed::I64Eq => Operator::I64Eq, Parsed::I64Ne => Operator::I64Ne, Parsed::I64LtS => Operator::I64LtS, Parsed::I64LtU => Operator::I64LtU,
        Parsed::I64GtS => Operator::I64GtS, Parsed::I64GtU => Operator::I64GtU, Parsed::I64LeS => Operator::I64LeS, Parsed::I64LeU => Operator::I64LeU,
        Parsed::I64GeS => Operator::I64GeS, Parsed::I64GeU => Operator::I64GeU, Parsed::I64Eqz => Operator::I64Eqz, Parsed::F64Eq => Operator::F64Eq,
        Parsed::F64Ne => Operator::F64Ne, Parsed::F64Lt => Operator::F64Lt, Parsed::F64Gt => Operator::F64Gt, Parsed::F64Le => Operator::F64Le,
        Parsed::F64Ge => Operator::F64Ge,
        _ => return None,
    })).collect()
}

/// `wasmparser::OperatorsReader::read`, until it fails: the instructions of one group, each at
/// its position.
#[verifier::external_body]
fn read_i32_arithmetic(bytes: &[u8], at: u64) -> (r: Vec<Option<Operator>>)
    requires
        at + bytes@.len() <= u64::MAX,
    ensures
        lists_group(r@, operators_in(bytes@).0, |op: Operator| in_i32_arithmetic(op)),
{
    let reader = OperatorsReader::new(BinaryReader::new(bytes, at));
    reader.into_iter().map_while(|op| op.ok()).map(|op| Some(match op {
        Parsed::I32Add => Operator::I32Add, Parsed::I32Sub => Operator::I32Sub, Parsed::I32Mul => Operator::I32Mul, Parsed::I32DivS => Operator::I32DivS,
        Parsed::I32DivU => Operator::I32DivU, Parsed::I32RemS => Operator::I32RemS, Parsed::I32RemU => Operator::I32RemU, Parsed::I32And => Operator::I32And,
        Parsed::I32Or => Operator::I32Or, Parsed::I32Xor => Operator::I32Xor, Parsed::I32Shl => Operator::I32Shl, Parsed::I32ShrS => Operator::I32ShrS,
        Parsed::I32ShrU => Operator::I32ShrU, Parsed::I32Rotl => Operator::I32Rotl, Parsed::I32Rotr => Operator::I32Rotr, Parsed::I32Clz => Operator::I32Clz,
        Parsed::I32Ctz => Operator::I32Ctz,
        _ => return None,
    })).collect()
}

/// `wasmparser::OperatorsReader::read`, until it fails: the instructions of one group, each at
/// its position.
#[verifier::external_body]
fn read_i64_arithmetic(bytes: &[u8], at: u64) -> (r: Vec<Option<Operator>>)
    requires
        at + bytes@.len() <= u64::MAX,
    ensures
        lists_group(r@, operators_in(bytes@).0, |op: Operator| in_i64_arithmetic(op)),
{
    let reader = OperatorsReader::new(BinaryReader::new(bytes, at));
    reader.into_iter().map_while(|op| op.ok()).map(|op| Some(match op {
        Parsed::I64Add => Operator::I64Add, Parsed::I64Sub => Operator::I64Sub, Parsed::I64Mul => Operator::I64Mul, Parsed::I64DivS => Operator::I64DivS,
        Parsed::I64DivU => Operator::I64DivU, Parsed::I64RemS => Operator::I64RemS, Parsed::I64RemU => Operator::I64RemU, Parsed::I64And => Operator::I64And,
        Parsed::I64Or => Operator::I64Or, Parsed::I64Xor => Operator::I64Xor, Parsed::I64Shl => Operator::I64Shl, Parsed::I64ShrS => Operator::I64ShrS,
        Parsed::I64ShrU => Operator::I64ShrU, Parsed::I64Rotl => Operator::I64Rotl, Parsed::I64Rotr => Operator::I64Rotr, Parsed::I64Clz => Operator::I64Clz,
        Parsed::I64Ctz => Operator::I64Ctz,
        _ => return None,
    })).collect()
}

/// `wasmparser::OperatorsReader::read`, until it fails: the instructions of one group, each at
/// its position.
#[verifier::external_body]
fn read_f32_arithmetic(bytes: &[u8], at: u64) -> (r: Vec<Option<Operator>>)
    requires
        at + bytes@.len() <= u64::MAX,
    ensures
        lists_group(r@, operators_in(bytes@).0, |op: Operator| in_f32_arithmetic(op)),
{
    let reader = OperatorsReader::new(BinaryReader::new(bytes, at));
    reader.into_iter().map_while(|op| op.ok()).map(|op| Some(match op {
        Parsed::F32Abs => Operator::F32Abs, Parsed::F32Neg => Operator::F32Neg, Parsed::F32Ceil => Operator::F32Ceil, Parsed::F32Floor => Operator::F32Floor,
        Parsed::F32Trunc => Operator::F32Trunc, Parsed::F32Nearest => Operator::F32Nearest, Parsed::F32Sqrt => Operator::F32Sqrt, Parsed::F32Add => Operator::F32Add,
        Parsed::F32Sub => Operator::F32Sub, Parsed::F32Mul => Operator::F32Mul, Parsed::F32Div => Operator::F32Div, Parsed::F32Min => Operator::F32Min,
        Parsed::F32Max => Operator::F32Max, Parsed::F32Copysign => Operator::F32Copysign,
        _ => return None,
    })).collect()
}

/// `wasmparser::OperatorsReader::read`, until it fails: the instructions of one group, each at
/// its position.
#[verifier::external_body]
fn read_f64_arithmetic(bytes: &[u8], at: u64) -> (r: Vec<Option<Operator>>)
    requires
        at + bytes@.len() <= u64::MAX,
    ensures
        lists_group(r@, operators_in(bytes@).0, |op: Operator| in_f64_arithmetic(op)),
{
    let reader = OperatorsReader::new(BinaryReader::new(bytes, at));
    reader.into_iter().map_while(|op| op.ok()).map(|op| Some(match op {
        Parsed::F64Abs => Operator::F64Abs, Parsed::F64Neg => Operator::F64Neg, Parsed::F64Ceil => Operator::F64Ceil, Parsed::F64Floor => Operator::F64Floor,
        Parsed::F64Trunc => Operator::F64Trunc, Parsed::F64Nearest => Operator::F64Nearest, Parsed::F64Sqrt => Operator::F64Sqrt, Parsed::F64Add => Operator::F64Add,
        Parsed::F64Sub => Operator::F64Sub, Parsed::F64Mul => Operator::F64Mul, Parsed::F64Div => Operator::F64Div, Parsed::F64Min => Operator::F64Min,
        Parsed::F64Max => Operator::F64Max, Parsed::F64Copysign => Operator::F64Copysign,
        _ => return None,
    })).collect()
}

/// `wasmparser::OperatorsReader::read`, until it fails: the instructions of one group, each at
/// its position.
#[verifier::external_body]
fn read_truncations(bytes: &[u8], at: u64) -> (r: Vec<Option<Operator>>)
    requires
        at + bytes@.len() <= u64::MAX,
    ensures
        lists_group(r@, operators_in(bytes@).0, |op: Operator| in_truncations(op)),
{
    let reader = OperatorsReader::new(BinaryReader::new(bytes, at));
    reader.into_iter().map_while(|op| op.ok()).map(|op| Some(match op {
        Parsed::I32TruncF32S => Operator::I32TruncF32S, Parsed::I32TruncF32U => Operator::I32TruncF32U, Parsed::I32TruncF64S => Operator::I32TruncF64S,
        Parsed::I32TruncF64U => Operator::I32TruncF64U, Parsed::I64TruncF32S => Operator::I64TruncF32S, Parsed::I64TruncF32U => Operator::I64TruncF32U,
        Parsed::I64TruncF64S => Operator::I64TruncF64S, Parsed::I64TruncF64U => Operator::I64TruncF64U, Parsed::I32TruncSatF32S => Operator::I32TruncSatF32S,
        Parsed::I32TruncSatF32U => Operator::I32TruncSatF32U, Parsed::I32TruncSatF64S => Operator::I32TruncSatF64S, Parsed::I32TruncSatF64U => Operator::I32TruncSatF64U,
        Parsed::I64TruncSatF32S => Operator::I64TruncSatF32S, Parsed::I64TruncSatF32U => Operator::I64TruncSatF32U, Parsed::I64TruncSatF64S => Operator::I64TruncSatF64S,
        Parsed::I64TruncSatF64U => Operator::I64TruncSatF64U,
        _ => return None,
    })).collect()
}

/// `wasmparser::OperatorsReader::read`, until it fails: the instructions of one group, each at
/// its position.
#[verifier::external_body]
fn read_conversions(bytes: &[u8], at: u64) -> (r: Vec<Option<Operator>>)
    requires
        at + bytes@.len() <= u64::MAX,
    ensures
        lists_group(r@, operators_in(bytes@).0, |op: Operator| in_conversions(op)),
{
    let reader = OperatorsReader::new(BinaryReader::new(bytes, at));
    reader.into_iter().map_while(|op| op.ok()).map(|op| Some(match op {
        Parsed::F32ConvertI32S => Operator::F32ConvertI32S, Parsed::F32ConvertI32U => Operator::F32ConvertI32U, Parsed::F32ConvertI64S => Operator::F32ConvertI64S,
        Parsed::F32ConvertI64U => Operator::F32ConvertI64U, Parsed::F64ConvertI32S => Operator::F64ConvertI32S, Parsed::F64ConvertI32U => Operator::F64ConvertI32U,
        Parsed::F64ConvertI64S => Operator::F64ConvertI64S, Parsed::F64ConvertI64U => Operator::F64ConvertI64U, Parsed::I32ReinterpretF32 => Operator::I32ReinterpretF32,
        Parsed::I64ReinterpretF64 => Operator::I64ReinterpretF64, Parsed::F32ReinterpretI32 => Operator::F32ReinterpretI32,
        Parsed::F64ReinterpretI64 => Operator::F64ReinterpretI64, Parsed::I64ExtendI32S => Operator::I64ExtendI32S, Parsed::I64ExtendI32U => Operator::I64ExtendI32U,
        Parsed::F32DemoteF64 => Operator::F32DemoteF64, Parsed::F64PromoteF32 => Operator::F64PromoteF32,
        _ => return None,
    })).collect()
}

/// `wasmparser::OperatorsReader::read`, until it fails: the instructions of one group, each at
/// its position.
#[verifier::external_body]
fn read_bit_operations(bytes: &[u8], at: u64) -> (r: Vec<Option<Operator>>)
    requires
        at + bytes@.len() <= u64::MAX,
    ensures
        lists_group(r@, operators_in(bytes@).0, |op: Operator| in_bit_operations(op)),
{
    let reader = OperatorsReader::new(BinaryReader::new(bytes, at));
    reader.into_iter().map_while(|op| op.ok()).map(|op| Some(match op {
        Parsed::I32Popcnt => Operator::I32Popcnt, Parsed::I64Popcnt => Operator::I64Popcnt, Parsed::I32Extend8S => Operator::I32Extend8S,
        Parsed::I32Extend16S => Operator::I32Extend16S, Parsed::I64Extend8S => Operator::I64Extend8S, Parsed::I64Extend16S => Operator::I64Extend16S,
        Parsed::I64Extend32S => Operator::I64Extend32S, Parsed::I32WrapI64 => Operator::I32WrapI64,
        _ => return None,
    })).collect()
}

/// `wasmparser::OperatorsReader::read`, until it fails: the instructions of one group, each at
/// its position.
#[verifier::external_body]
fn read_plain_control(bytes: &[u8], at: u64) -> (r: Vec<Option<Operator>>)
    requires
        at + bytes@.len() <= u64::MAX,
    ensures
        lists_group(r@, operators_in(bytes@).0, |op: Operator| in_plain_control(op)),
{
    let reader = OperatorsReader::new(BinaryReader::new(bytes, at));
    reader.into_iter().map_while(|op| op.ok()).map(|op| Some(match op {
        Parsed::Unreachable => Operator::Unreachable, Parsed::Nop => Operator::Nop, Parsed::Else => Operator::Else, Parsed::End => Operator::End,
        Parsed::Return => Operator::Return, Parsed::Drop => Operator::Drop, Parsed::Select => Operator::Select,
        _ => return None,
    })).collect()
}

/// `wasmparser::OperatorsReader::read`, until it fails: the instructions of one group, each at
/// its position.
#[verifier::external_body]
fn read_float_accesses(bytes: &[u8], at: u64) -> (r: Vec<Option<Operator>>)
    requires
        at + bytes@.len() <= u64::MAX,
    ensures
        lists_group(r@, operators_in(bytes@).0, |op: Operator| in_float_accesses(op)),
{
    let reader = OperatorsReader::new(BinaryReader::new(bytes, at));
    reader.into_iter().map_while(|op| op.ok()).map(|op| Some(match op {
        Parsed::F32Load { memarg: m } => Operator::F32Load { offset: m.offset }, Parsed::F64Load { memarg: m } => Operator::F64Load { offset: m.offset },
        Parsed::F32Store { memarg: m } => Operator::F32Store { offset: m.offset }, Parsed::F64Store { memarg: m } => Operator::F64Store { offset: m.offset },
        Parsed::I32Load { memarg: m } => Operator::I32Load { offset: m.offset }, Parsed::I32Store { memarg: m } => Operator::I32Store { offset: m.offset },
        _ => return None,
    })).collect()
}

/// `wasmparser::OperatorsReader::read`, until it fails: the instructions of one group, each at
/// its position.
#[verifier::external_body]
fn read_i32_accesses(bytes: &[u8], at: u64) -> (r: Vec<Option<Operator>>)
    requires
        at + bytes@.len() <= u64::MAX,
    ensures
        lists_group(r@, operators_in(bytes@).0, |op: Operator| in_i32_accesses(op)),
{
    let reader = OperatorsReader::new(BinaryReader::new(bytes, at));
    reader.into_iter().map_while(|op| op.ok()).map(|op| Some(match op {
        Parsed::I32Load8S { memarg: m } => Operator::I32Load8S { offset: m.offset }, Parsed::I32Load8U { memarg: m } => Operator::I32Load8U { offset: m.offset },
        Parsed::I32Load16S { memarg: m } => Operator::I32Load16S { offset: m.offset }, Parsed::I32Load16U { memarg: m } => Operator::I32Load16U { offset: m.offset },
        Parsed::I32Store8 { memarg: m } => Operator::I32Store8 { offset: m.offset }, Parsed::I32Store16 { memarg: m } => Operator::I32Store16 { offset: m.offset },
        _ => return None,
    })).collect()
}

/// `wasmparser::OperatorsReader::read`, until it fails: the instructions of one group, each at
/// its position.
#[verifier::external_body]
fn read_i64_loads(bytes: &[u8], at: u64) -> (r: Vec<Option<Operator>>)
    requires
        at + bytes@.len() <= u64::MAX,
    ensures
        lists_group(r@, operators_in(bytes@).0, |op: Operator| in_i64_loads(op)),
{
    let reader = OperatorsReader::new(BinaryReader::new(bytes, at));
    reader.into_iter().map_while(|op| op.ok()).map(|op| Some(match op {
        Parsed::I64Load8S { memarg: m } => Operator::I64Load8S { offset: m.offset }, Parsed::I64Load8U { memarg: m } => Operator::I64Load8U { offset: m.offset },
        Parsed::I64Load16S { memarg: m } => Operator::I64Load16S { offset: m.offset }, Parsed::I64Load16U { memarg: m } => Operator::I64Load16U { offset: m.offset },
        Parsed::I64Load32S { memarg: m } => Operator::I64Load32S { offset: m.offset }, Parsed::I64Load32U { memarg: m } => Operator::I64Load32U { offset: m.offset },
        _ => return None,
    })).collect()
}

/// `wasmparser::OperatorsReader::read`, until it fails: the instructions of one group, each at
/// its position.
#[verifier::external_body]
fn read_i64_accesses(bytes: &[u8], at: u64) -> (r: Vec<Option<Operator>>)
    requires
        at + bytes@.len() <= u64::MAX,
    ensures
        lists_group(r@, operators_in(bytes@).0, |op: Operator| in_i64_accesses(op)),
{
    let reader = OperatorsReader::new(BinaryReader::new(bytes, at));
    reader.into_iter().map_while(|op| op.ok()).map(|op| Some(match op {
        Parsed::I64Load { memarg: m } => Operator::I64Load { offset: m.offset }, Parsed::I64Store { memarg: m } => Operator::I64Store { offset: m.offset },
        Parsed::I64Store8 { memarg: m } => Operator::I64Store8 { offset: m.offset }, Parsed::I64Store16 { memarg: m } => Operator::I64Store16 { offset: m.offset },
        Parsed::I64Store32 { memarg: m } => Operator::I64Store32 { offset: m.offset },
        _ => return None,
    })).collect()
}

/// `wasmparser::OperatorsReader::read`, until it fails: the instructions of one group, each at
/// its position.
#[verifier::external_body]
fn read_blocks(bytes: &[u8], at: u64) -> (r: Vec<Option<Operator>>)
    requires
        at + bytes@.len() <= u64::MAX,
    ensures
        lists_group(r@, operators_in(bytes@).0, |op: Operator| in_blocks(op)),
{
    let block = |b| match b { wasmparser::BlockType::Empty => BlockType::Empty, wasmparser::BlockType::Type(_) => BlockType::Value, wasmparser::BlockType::FuncType(i) => BlockType::FuncType(i) };
    let reader = OperatorsReader::new(BinaryReader::new(bytes, at));
    reader.into_iter().map_while(|op| op.ok()).map(|op| Some(match op {
        Parsed::Block { blockty: b } => Operator::Block { blockty: block(b) }, Parsed::Loop { blockty: b } => Operator::Loop { blockty: block(b) },
        Parsed::If { blockty: b } => Operator::If { blockty: block(b) },
        _ => return None,
    })).collect()
}

/// `wasmparser::OperatorsReader::read`, until it fails: the instructions of one group, each at
/// its position.
#[verifier::external_body]
fn read_branches(bytes: &[u8], at: u64) -> (r: Vec<Option<Operator>>)
    requires
        at + bytes@.len() <= u64::MAX,
    ensures
        lists_group(r@, operators_in(bytes@).0, |op: Operator| in_branches(op)),
{
    let reader = OperatorsReader::new(BinaryReader::new(bytes, at));
    reader.into_iter().map_while(|op| op.ok()).map(|op| Some(match op {
        Parsed::Br { relative_depth } => Operator::Br { relative_depth }, Parsed::BrIf { relative_depth } => Operator::BrIf { relative_depth },
        Parsed::BrTable { targets: t } => Operator::BrTable { targets: t.targets().map_while(|x| x.ok()).collect(), default: t.default() },
        Parsed::Call { function_index } => Operator::Call { function_index }, Parsed::CallIndirect { type_index, .. } => Operator::CallIndirect { type_index },
        _ => return None,
    })).collect()
}

/// `wasmparser::OperatorsReader::read`, until it fails: the instructions of one group, each at
/// its position.
#[verifier::external_body]
fn read_memory_control(bytes: &[u8], at: u64) -> (r: Vec<Option<Operator>>)
    requires
        at + bytes@.len() <= u64::MAX,
    ensures
        lists_group(r@, operators_in(bytes@).0, |op: Operator| in_memory_control(op)),
{
    let reader = OperatorsReader::new(BinaryReader::new(bytes, at));
    reader.into_iter().map_while(|op| op.ok()).map(|op| Some(match op {
        Parsed::MemorySize { .. } => Operator::MemorySize, Parsed::MemoryGrow { .. } => Operator::MemoryGrow, Parsed::MemoryFill { .. } => Operator::MemoryFill,
        Parsed::MemoryCopy { .. } => Operator::MemoryCopy, Parsed::MemoryInit { data_index, .. } => Operator::MemoryInit { data_index },
        Parsed::DataDrop { data_index } => Operator::DataDrop { data_index }, Parsed::ElemDrop { elem_index } => Operator::ElemDrop { elem_index },
        _ => return None,
    })).collect()
}

/// `wasmparser::OperatorsReader::read`, until it fails: the instructions of one group, each at
/// its position.
#[verifier::external_body]
fn read_variables(bytes: &[u8], at: u64) -> (r: Vec<Option<Operator>>)
    requires
        at + bytes@.len() <= u64::MAX,
    ensures
        lists_group(r@, operators_in(bytes@).0, |op: Operator| in_variables(op)),
{
    let reader = OperatorsReader::new(BinaryReader::new(bytes, at));
    reader.into_iter().map_while(|op| op.ok()).map(|op| Some(match op {
        Parsed::LocalGet { local_index } => Operator::LocalGet { local_index }, Parsed::LocalSet { local_index } => Operator::LocalSet { local_index },
        Parsed::LocalTee { local_index } => Operator::LocalTee { local_index }, Parsed::GlobalGet { global_index } => Operator::GlobalGet { global_index },
        Parsed::GlobalSet { global_index } => Operator::GlobalSet { global_index }, Parsed::I32Const { value } => Operator::I32Const { value },
        Parsed::I64Const { value } => Operator::I64Const { value }, Parsed::F32Const { value } => Operator::F32Const { value: value.bits() },
        Parsed::F64Const { value } => Operator::F64Const { value: value.bits() },
        _ => return None,
    })).collect()
}

/// `wasmparser::OperatorsReader::read`, until it fails: the instructions of one group, each at
/// its position, with its `Debug` rendering.
#[verifier::external_body]
fn read_table_instructions(bytes: &[u8], at: u64) -> (r: Vec<Option<Operator>>)
    requires
        at + bytes@.len() <= u64::MAX,
    ensures
        lists_group(r@, operators_in(bytes@).0, |op: Operator| in_table_instructions(op)),
{
    let reader = OperatorsReader::new(BinaryReader::new(bytes, at));
    reader.into_iter().map_while(|op| op.ok()).map(|op| (format!("{op:?}"), op)).map(|(text, op)| Some(match op {
        Parsed::RefNull { .. } => Operator::RefNull { text }, Parsed::TableGet { .. } => Operator::TableGet { text },
        Parsed::TableSet { .. } => Operator::TableSet { text }, Parsed::TableSize { .. } => Operator::TableSize { text },
        Parsed::TableGrow { .. } => Operator::TableGrow { text }, Parsed::TableFill { .. } => Operator::TableFill { text },
        Parsed::TableCopy { .. } => Operator::TableCopy { text }, Parsed::TableInit { .. } => Operator::TableInit { text },
        _ => return None,
    })).collect()
}

/// `wasmparser::OperatorsReader::read`, until it fails: the instructions of one group, each at
/// its position, with its `Debug` rendering.
#[verifier::external_body]
fn read_rendered_instructions(bytes: &[u8], at: u64) -> (r: Vec<Option<Operator>>)
    requires
        at + bytes@.len() <= u64::MAX,
    ensures
        lists_group(r@, operators_in(bytes@).0, |op: Operator| in_rendered_instructions(op)),
{
    let reader = OperatorsReader::new(BinaryReader::new(bytes, at));
    reader.into_iter().map_while(|op| op.ok()).map(|op| (format!("{op:?}"), op)).map(|(text, op)| Some(match op {
        Parsed::RefIsNull => Operator::RefIsNull { text }, Parsed::RefFunc { function_index } => Operator::RefFunc { function_index, text },
        Parsed::ReturnCall { function_index } => Operator::ReturnCall { function_index, text },
        Parsed::TypedSelect { ty: wasmparser::ValType::Ref(_) } => Operator::TypedSelect { reference: true, text }, Parsed::TypedSelect { .. } => Operator::TypedSelect { reference: false, text },
        _ => return None,
    })).collect()
}

/// `wasmparser::OperatorsReader::read`, until it fails: the `Debug` rendering of each
/// instruction, which is all that is kept of one that no group holds.
#[verifier::external_body]
fn read_renderings(bytes: &[u8], at: u64) -> (r: Vec<String>)
    requires
        at + bytes@.len() <= u64::MAX,
    ensures
        r@.len() == operators_in(bytes@).0.len(),
        forall|i: int|
            0 <= i < r@.len() ==> (operators_in(bytes@).0[i] matches Operator::Other { text }
                ==> text@ == (#[trigger] r@[i])@),
{
    let reader = OperatorsReader::new(BinaryReader::new(bytes, at));
    reader.into_iter().map_while(|op| op.ok()).map(|op| format!("{op:?}")).collect()
}

/// Does a list hold exactly the instructions of a group, each at its position?
pub open spec fn lists_group(
    r: Seq<Option<Operator>>,
    ops: Seq<Operator>,
    group: spec_fn(Operator) -> bool,
) -> bool {
    r.len() == ops.len() && forall|i: int|
        0 <= i < r.len() ==> match #[trigger] r[i] {
            Some(op) => group(ops[i]) && same_operator(op, ops[i]),
            None => !group(ops[i]),
        }
}

/// Put the instructions of one group in place.
fn place_group(
    out: &mut Vec<Operator>,
    found: Vec<Option<Operator>>,
    Ghost(ops): Ghost<Seq<Operator>>,
    Ghost(group): Ghost<spec_fn(Operator) -> bool>,
)
    requires
        old(out)@.len() == ops.len(),
        lists_group(found@, ops, group),
    ensures
        final(out)@.len() == ops.len(),
        forall|i: int|
            0 <= i < ops.len() ==> if group(ops[i]) {
                same_operator(#[trigger] final(out)@[i], ops[i])
            } else {
                final(out)@[i] == old(out)@[i]
            },
{
    let mut found = found;
    let ghost all = found@;
    let ghost before = out@;
    let mut i: usize = found.len();
    while i > 0
        invariant
            i == found@.len(),
            i <= all.len() == ops.len(),
            found@ == all.take(i as int),
            lists_group(all, ops, group),
            out@.len() == ops.len(),
            before.len() == ops.len(),
            forall|k: int| 0 <= k < i ==> #[trigger] out@[k] == before[k],
            forall|k: int|
                i <= k < ops.len() ==> if group(ops[k]) {
                    same_operator(#[trigger] out@[k], ops[k])
                } else {
                    out@[k] == before[k]
                },
        decreases i,
    {
        i = i - 1;
        let next = found.pop();
        assert(all[i as int] == all.take(i + 1)[i as int]);
        if let Some(Some(op)) = next {
            out.set(i, op);
        }
        assert(found@ =~= all.take(i as int));
    }
}

/// Every instruction with a case of its own is in one of the groups.
proof fn lemma_groups_cover(op: Operator)
    requires
        !(op is Other),
    ensures
        in_narrow_comparisons(op)
            || in_wide_comparisons(op)
            || in_i32_arithmetic(op)
            || in_i64_arithmetic(op)
            || in_f32_arithmetic(op)
            || in_f64_arithmetic(op)
            || in_truncations(op)
            || in_conversions(op)
            || in_bit_operations(op)
            || in_plain_control(op)
            || in_float_accesses(op)
            || in_i32_accesses(op)
            || in_i64_loads(op)
            || in_i64_accesses(op)
            || in_blocks(op)
            || in_branches(op)
            || in_memory_control(op)
            || in_variables(op)
            || in_table_instructions(op)
            || in_rendered_instructions(op),
{
}

/// What reading instructions gave.
#[derive(Debug, Clone, PartialEq, Eq)]
pub struct Listing {
    /// The instructions.
    pub ops: Vec<Operator>,
    /// Did they end where the bytes do?
    pub complete: bool,
    /// The rendering of the error that reading on gives.
    pub error: String,
}

/// What reading instructions gave, viewed.
pub struct ListingView {
    /// The instructions.
    pub ops: Seq<Operator>,
    /// Did they end where the bytes do?
    pub complete: bool,
    /// The rendering of the error that reading on gives.
    pub error: Seq<char>,
}

impl DeepView for Listing {
    type V = ListingView;

    open spec fn deep_view(&self) -> ListingView {
        ListingView { ops: self.ops@, complete: self.complete, error: self.error@ }
    }
}

/// Do two readings list the same instructions, and end alike?
pub open spec fn same_listing(a: ListingView, b: ListingView) -> bool {
    same_operators(a.ops, b.ops) && a.complete == b.complete && a.error == b.error
}

/// What reading the instructions of a run of bytes gives.
pub open spec fn listing_of(bytes: Seq<u8>, at: u64) -> ListingView {
    let (ops, complete) = operators_in(bytes);
    ListingView { ops, complete, error: operators_fault(bytes, at) }
}

/// Read the instructions that a run of bytes holds.
pub fn read_operators(bytes: &[u8], at: u64) -> (r: Listing)
    requires
        at + bytes@.len() <= u64::MAX,
    ensures
        same_listing(r.deep_view(), listing_of(bytes@, at)),
{
    let ghost all = operators_in(bytes@).0;
    let (complete, error) = read_operators_end(bytes, at);
    let texts = read_renderings(bytes, at);
    let count: usize = texts.len();
    let mut ops: Vec<Operator> = Vec::new();
    let mut i: usize = 0;
    while i < count
        invariant
            i <= count,
            count == all.len(),
            texts@.len() == count,
            ops@.len() == i,
            forall|k: int|
                0 <= k < count ==> (all[k] matches Operator::Other { text } ==> text@ == (
                #[trigger] texts@[k])@),
            forall|k: int|
                0 <= k < i ==> (all[k] is Other ==> same_operator(#[trigger] ops@[k], all[k])),
        decreases count - i,
    {
        ops.push(Operator::Other { text: texts[i].clone() });
        i = i + 1;
    }
    place_group(
        &mut ops,
        read_narrow_comparisons(bytes, at),
        Ghost(all),
        Ghost(|op: Operator| in_narrow_comparisons(op)),
    );
    place_group(
        &mut ops,
        read_wide_comparisons(bytes, at),
        Ghost(all),
        Ghost(|op: Operator| in_wide_comparisons(op)),
    );
    place_group(
        &mut ops,
        read_i32_arithmetic(bytes, at),
        Ghost(all),
        Ghost(|op: Operator| in_i32_arithmetic(op)),
    );
    place_group(
        &mut ops,
        read_i64_arithmetic(bytes, at),
        Ghost(all),
        Ghost(|op: Operator| in_i64_arithmetic(op)),
    );
    place_group(
        &mut ops,
        read_f32_arithmetic(bytes, at),
        Ghost(all),
        Ghost(|op: Operator| in_f32_arithmetic(op)),
    );
    place_group(
        &mut ops,
        read_f64_arithmetic(bytes, at),
        Ghost(all),
        Ghost(|op: Operator| in_f64_arithmetic(op)),
    );
    place_group(
        &mut ops,
        read_truncations(bytes, at),
        Ghost(all),
        Ghost(|op: Operator| in_truncations(op)),
    );
    place_group(
        &mut ops,
        read_conversions(bytes, at),
        Ghost(all),
        Ghost(|op: Operator| in_conversions(op)),
    );
    place_group(
        &mut ops,
        read_bit_operations(bytes, at),
        Ghost(all),
        Ghost(|op: Operator| in_bit_operations(op)),
    );
    place_group(
        &mut ops,
        read_plain_control(bytes, at),
        Ghost(all),
        Ghost(|op: Operator| in_plain_control(op)),
    );
    place_group(
        &mut ops,
        read_float_accesses(bytes, at),
        Ghost(all),
        Ghost(|op: Operator| in_float_accesses(op)),
    );
    place_group(
        &mut ops,
        read_i32_accesses(bytes, at),
        Ghost(all),
        Ghost(|op: Operator| in_i32_accesses(op)),
    );
    place_group(
        &mut ops,
        read_i64_loads(bytes, at),
        Ghost(all),
        Ghost(|op: Operator| in_i64_loads(op)),
    );
    place_group(
        &mut ops,
        read_i64_accesses(bytes, at),
        Ghost(all),
        Ghost(|op: Operator| in_i64_accesses(op)),
    );
    place_group(
        &mut ops,
        read_blocks(bytes, at),
        Ghost(all),
        Ghost(|op: Operator| in_blocks(op)),
    );
    place_group(
        &mut ops,
        read_branches(bytes, at),
        Ghost(all),
        Ghost(|op: Operator| in_branches(op)),
    );
    place_group(
        &mut ops,
        read_memory_control(bytes, at),
        Ghost(all),
        Ghost(|op: Operator| in_memory_control(op)),
    );
    place_group(
        &mut ops,
        read_variables(bytes, at),
        Ghost(all),
        Ghost(|op: Operator| in_variables(op)),
    );
    place_group(
        &mut ops,
        read_table_instructions(bytes, at),
        Ghost(all),
        Ghost(|op: Operator| in_table_instructions(op)),
    );
    place_group(
        &mut ops,
        read_rendered_instructions(bytes, at),
        Ghost(all),
        Ghost(|op: Operator| in_rendered_instructions(op)),
    );
    proof {
        assert forall|k: int| 0 <= k < all.len() implies same_operator(
            #[trigger] ops@[k],
            all[k],
        ) by {
            if !(all[k] is Other) {
                lemma_groups_cover(all[k]);
            }
        }
    }
    Listing { ops, complete, error }
}

} // verus!
