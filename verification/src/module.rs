//! A module as its reader found it, part by part.
//!
//! What a module is read into holds every list that the rules on modules look at, so that those
//! rules are functions of plain values. Each list goes up to the reader's first error, which is
//! kept beside it.
use crate::wasm::{
    self, ElementItems, ElementKind, Export, ExportView, ImportType, ImportTypeView, Listing,
    ListingView, MemoryType, PartKind, Span, TableType, listing_of, same_listing, slice_of,
};
use vstd::prelude::*;

verus! {

/// An import.
#[derive(Debug, PartialEq, Eq)]
pub struct Import {
    /// The module it comes from.
    pub module: String,
    /// Its name there.
    pub name: String,
    /// What it brings in.
    pub ty: ImportType,
}

/// An import, viewed.
pub struct ImportView {
    /// The module it comes from.
    pub module: Seq<char>,
    /// Its name there.
    pub name: Seq<char>,
    /// What it brings in.
    pub ty: ImportTypeView,
}

impl DeepView for Import {
    type V = ImportView;

    open spec fn deep_view(&self) -> ImportView {
        ImportView { module: self.module@, name: self.name@, ty: self.ty.deep_view() }
    }
}

/// A global.
#[derive(Debug, PartialEq, Eq)]
pub struct Global {
    /// The rendering of the type it holds.
    pub content: String,
    /// May it be written?
    pub mutable: bool,
    /// Its initializer.
    pub init: Listing,
}

/// A global, viewed.
pub struct GlobalView {
    /// The rendering of the type it holds.
    pub content: Seq<char>,
    /// May it be written?
    pub mutable: bool,
    /// Its initializer.
    pub init: ListingView,
}

impl DeepView for Global {
    type V = GlobalView;

    open spec fn deep_view(&self) -> GlobalView {
        GlobalView {
            content: self.content@,
            mutable: self.mutable,
            init: self.init.deep_view(),
        }
    }
}

/// When an element segment is copied.
#[derive(Debug, PartialEq, Eq)]
pub enum Mode {
    /// On request.
    Passive,
    /// At instantiation, to where this expression says.
    Active(Listing),
    /// Never.
    Declared,
}

/// When an element segment is copied, viewed.
pub enum ModeView {
    /// On request.
    Passive,
    /// At instantiation, to where this expression says.
    Active(ListingView),
    /// Never.
    Declared,
}

impl DeepView for Mode {
    type V = ModeView;

    open spec fn deep_view(&self) -> ModeView {
        match *self {
            Mode::Passive => ModeView::Passive,
            Mode::Active(offset) => ModeView::Active(offset.deep_view()),
            Mode::Declared => ModeView::Declared,
        }
    }
}

/// An element segment.
#[derive(Debug, PartialEq, Eq)]
pub struct Element {
    /// When it is copied.
    pub mode: Mode,
    /// The functions it lists, or nothing if it lists expressions.
    pub functions: Option<(Vec<u32>, Option<String>)>,
}

/// An element segment, viewed.
pub struct ElementView {
    /// When it is copied.
    pub mode: ModeView,
    /// The functions it lists, or nothing if it lists expressions.
    pub functions: Option<(Seq<u32>, Option<Seq<char>>)>,
}

impl DeepView for Element {
    type V = ElementView;

    open spec fn deep_view(&self) -> ElementView {
        ElementView { mode: self.mode.deep_view(), functions: self.functions.deep_view() }
    }
}

/// A data segment.
#[derive(Debug, PartialEq, Eq)]
pub struct Segment {
    /// Where it is copied at instantiation, if it is.
    pub offset: Option<Listing>,
    /// The bytes.
    pub bytes: Vec<u8>,
}

/// A data segment, viewed.
pub struct SegmentView {
    /// Where it is copied at instantiation, if it is.
    pub offset: Option<ListingView>,
    /// The bytes.
    pub bytes: Seq<u8>,
}

impl DeepView for Segment {
    type V = SegmentView;

    open spec fn deep_view(&self) -> SegmentView {
        SegmentView { offset: self.offset.deep_view(), bytes: self.bytes@ }
    }
}

/// A function body.
#[derive(Debug, PartialEq, Eq)]
pub struct Body {
    /// The runs of locals it declares, each with the rendering of its type.
    pub locals: (Vec<(u32, String)>, Option<String>),
    /// Its instructions, or why there is no telling where they begin.
    pub code: Result<Listing, String>,
}

/// A function body, viewed.
pub struct BodyView {
    /// The runs of locals it declares, each with the rendering of its type.
    pub locals: (Seq<(u32, Seq<char>)>, Option<Seq<char>>),
    /// Its instructions, or why there is no telling where they begin.
    pub code: Result<ListingView, Seq<char>>,
}

impl DeepView for Body {
    type V = BodyView;

    open spec fn deep_view(&self) -> BodyView {
        BodyView {
            locals: self.locals.deep_view(),
            code: match self.code {
                Ok(listing) => Ok(listing.deep_view()),
                Err(error) => Err(error@),
            },
        }
    }
}

/// One part of a module.
#[derive(Debug, PartialEq, Eq)]
pub enum Part {
    /// The type section: what each function type takes and returns, by renderings. A type of
    /// another kind holds its place.
    Types(Vec<Option<(Vec<String>, Vec<String>)>>, Option<String>),
    /// The import section.
    Imports(Vec<Import>, Option<String>),
    /// The function section: the type of each function.
    Functions(Vec<u32>, Option<String>),
    /// The table section.
    Tables(Vec<TableType>, Option<String>),
    /// The memory section.
    Memories(Vec<MemoryType>, Option<String>),
    /// The global section.
    Globals(Vec<Global>, Option<String>),
    /// The export section.
    Exports(Vec<Export>, Option<String>),
    /// The start section, naming a function.
    Start(u32),
    /// The element section.
    Elements(Vec<Element>, Option<String>),
    /// One function body.
    Code(Body),
    /// The data section.
    Data(Vec<Segment>, Option<String>),
    /// Anything else.
    Other,
}

/// One part of a module, viewed.
pub enum PartView {
    /// The type section.
    Types(Seq<Option<(Seq<Seq<char>>, Seq<Seq<char>>)>>, Option<Seq<char>>),
    /// The import section.
    Imports(Seq<ImportView>, Option<Seq<char>>),
    /// The function section.
    Functions(Seq<u32>, Option<Seq<char>>),
    /// The table section.
    Tables(Seq<TableType>, Option<Seq<char>>),
    /// The memory section.
    Memories(Seq<MemoryType>, Option<Seq<char>>),
    /// The global section.
    Globals(Seq<GlobalView>, Option<Seq<char>>),
    /// The export section.
    Exports(Seq<ExportView>, Option<Seq<char>>),
    /// The start section, naming a function.
    Start(u32),
    /// The element section.
    Elements(Seq<ElementView>, Option<Seq<char>>),
    /// One function body.
    Code(BodyView),
    /// The data section.
    Data(Seq<SegmentView>, Option<Seq<char>>),
    /// Anything else.
    Other,
}

impl DeepView for Part {
    type V = PartView;

    open spec fn deep_view(&self) -> PartView {
        match *self {
            Part::Types(l, e) => PartView::Types(l.deep_view(), e.deep_view()),
            Part::Imports(l, e) => PartView::Imports(l.deep_view(), e.deep_view()),
            Part::Functions(l, e) => PartView::Functions(l@, e.deep_view()),
            Part::Tables(l, e) => PartView::Tables(l@, e.deep_view()),
            Part::Memories(l, e) => PartView::Memories(l@, e.deep_view()),
            Part::Globals(l, e) => PartView::Globals(l.deep_view(), e.deep_view()),
            Part::Exports(l, e) => PartView::Exports(l.deep_view(), e.deep_view()),
            Part::Start(f) => PartView::Start(f),
            Part::Elements(l, e) => PartView::Elements(l.deep_view(), e.deep_view()),
            Part::Code(b) => PartView::Code(b.deep_view()),
            Part::Data(l, e) => PartView::Data(l.deep_view(), e.deep_view()),
            Part::Other => PartView::Other,
        }
    }
}

/// A module: its parts in order, and the error that ended the reading, if one did.
#[derive(Debug, PartialEq, Eq)]
pub struct Module {
    /// The parts.
    pub parts: Vec<Part>,
    /// The reader's error.
    pub error: Option<String>,
}

/// A module, viewed.
pub struct ModuleView {
    /// The parts.
    pub parts: Seq<PartView>,
    /// The reader's error.
    pub error: Option<Seq<char>>,
}

impl DeepView for Module {
    type V = ModuleView;

    open spec fn deep_view(&self) -> ModuleView {
        ModuleView { parts: self.parts.deep_view(), error: self.error.deep_view() }
    }
}

/// Are two lists of globals alike, up to what their instructions hold by reference?
pub open spec fn same_globals(a: Seq<GlobalView>, b: Seq<GlobalView>) -> bool {
    a.len() == b.len() && forall|i: int|
        0 <= i < a.len() ==> {
            &&& (#[trigger] a[i]).content == b[i].content
            &&& a[i].mutable == b[i].mutable
            &&& same_listing(a[i].init, b[i].init)
        }
}

/// Are two element segments alike, up to what their instructions hold by reference?
pub open spec fn same_element(a: ElementView, b: ElementView) -> bool {
    &&& a.functions == b.functions
    &&& match (a.mode, b.mode) {
        (ModeView::Active(x), ModeView::Active(y)) => same_listing(x, y),
        (x, y) => x == y,
    }
}

/// Are two lists of element segments alike, up to what their instructions hold by reference?
pub open spec fn same_elements(a: Seq<ElementView>, b: Seq<ElementView>) -> bool {
    a.len() == b.len() && forall|i: int| 0 <= i < a.len() ==> same_element(#[trigger] a[i], b[i])
}

/// Are two data segments alike, up to what their instructions hold by reference?
pub open spec fn same_segment(a: SegmentView, b: SegmentView) -> bool {
    &&& a.bytes == b.bytes
    &&& match (a.offset, b.offset) {
        (Some(x), Some(y)) => same_listing(x, y),
        (x, y) => x == y,
    }
}

/// Are two lists of data segments alike, up to what their instructions hold by reference?
pub open spec fn same_segments(a: Seq<SegmentView>, b: Seq<SegmentView>) -> bool {
    a.len() == b.len() && forall|i: int| 0 <= i < a.len() ==> same_segment(#[trigger] a[i], b[i])
}

/// Are two bodies alike, up to what their instructions hold by reference?
pub open spec fn same_body(a: BodyView, b: BodyView) -> bool {
    &&& a.locals == b.locals
    &&& match (a.code, b.code) {
        (Ok(x), Ok(y)) => same_listing(x, y),
        (x, y) => x == y,
    }
}

/// Are two parts alike, up to what their instructions hold by reference?
pub open spec fn same_part(a: PartView, b: PartView) -> bool {
    match (a, b) {
        (PartView::Globals(l, e), PartView::Globals(m, f)) => same_globals(l, m) && e == f,
        (PartView::Elements(l, e), PartView::Elements(m, f)) => same_elements(l, m) && e == f,
        (PartView::Data(l, e), PartView::Data(m, f)) => same_segments(l, m) && e == f,
        (PartView::Code(b), PartView::Code(c)) => same_body(b, c),
        _ => a == b,
    }
}

/// Are two modules alike, up to what their instructions hold by reference?
pub open spec fn same_module(a: ModuleView, b: ModuleView) -> bool {
    &&& a.error == b.error
    &&& a.parts.len() == b.parts.len()
    &&& forall|i: int| 0 <= i < a.parts.len() ==> same_part(#[trigger] a.parts[i], b.parts[i])
}

/// What reading the instructions of a range of a section gives, where the section begins at an
/// offset of the module.
pub open spec fn listing_at(section: Seq<u8>, at: u64, s: Span) -> ListingView {
    listing_of(slice_of(section, s), (at + s.start) as u64)
}

/// What reading an element segment gives.
pub open spec fn element_at(
    section: Seq<u8>,
    at: u64,
    kind: ElementKind,
    items: ElementItems,
) -> ElementView {
    ElementView {
        mode: match kind {
            ElementKind::Passive => ModeView::Passive,
            ElementKind::Active { offset, .. } => ModeView::Active(
                listing_at(section, at, offset),
            ),
            ElementKind::Declared => ModeView::Declared,
        },
        functions: match items {
            ElementItems::Functions(s) => Some(
                wasm::indices_of(slice_of(section, s), (at + s.start) as u64),
            ),
            ElementItems::Expressions(_) => None,
        },
    }
}

/// What reading a function body gives.
pub open spec fn body_of(bytes: Seq<u8>, at: u64) -> BodyView {
    BodyView {
        locals: wasm::locals_of(bytes, at),
        code: match wasm::code_start_of(bytes, at) {
            Ok(start) => Ok(listing_of(bytes.skip(start as int), (at + start) as u64)),
            Err(error) => Err(error),
        },
    }
}

/// What reading one part of a module gives.
pub open spec fn part_at(module: Seq<u8>, kind: PartKind, span: Span) -> PartView {
    part_of(kind, slice_of(module, span), span.start as u64)
}

/// What reading one part gives, where it begins at an offset of its module.
pub open spec fn part_of(kind: PartKind, bytes: Seq<u8>, at: u64) -> PartView {
    match kind {
        PartKind::Types => {
            let (l, e) = wasm::types_of(bytes, at);
            PartView::Types(l, e)
        },
        PartKind::Imports => {
            let (names, e) = wasm::import_names_of(bytes, at);
            let types = wasm::import_types_in(bytes);
            PartView::Imports(
                Seq::new(
                    names.len(),
                    |i: int| ImportView { module: names[i].0, name: names[i].1, ty: types[i] },
                ),
                e,
            )
        },
        PartKind::Functions => {
            let (l, e) = wasm::indices_of(bytes, at);
            PartView::Functions(l, e)
        },
        PartKind::Tables => {
            let (l, e) = wasm::tables_of(bytes, at);
            PartView::Tables(l, e)
        },
        PartKind::Memories => {
            let (l, e) = wasm::memories_of(bytes, at);
            PartView::Memories(l, e)
        },
        PartKind::Globals => {
            let (l, e) = wasm::globals_of(bytes, at);
            PartView::Globals(
                Seq::new(
                    l.len(),
                    |i: int|
                        GlobalView {
                            content: l[i].content,
                            mutable: l[i].mutable,
                            init: listing_at(bytes, at, l[i].init),
                        },
                ),
                e,
            )
        },
        PartKind::Exports => {
            let (l, e) = wasm::exports_of(bytes, at);
            PartView::Exports(l, e)
        },
        PartKind::Start(f) => PartView::Start(f),
        PartKind::Elements => {
            let (kinds, e) = wasm::element_kinds_of(bytes, at);
            let items = wasm::element_items_in(bytes);
            PartView::Elements(
                Seq::new(kinds.len(), |i: int| element_at(bytes, at, kinds[i], items[i])),
                e,
            )
        },
        PartKind::Body => PartView::Code(body_of(bytes, at)),
        PartKind::Data => {
            let (l, e) = wasm::data_of(bytes, at);
            PartView::Data(
                Seq::new(
                    l.len(),
                    |i: int|
                        SegmentView {
                            offset: match l[i].offset {
                                Some(s) => Some(listing_at(bytes, at, s)),
                                None => None,
                            },
                            bytes: l[i].bytes,
                        },
                ),
                e,
            )
        },
        _ => PartView::Other,
    }
}

/// What reading a module gives.
pub open spec fn module_of(bytes: Seq<u8>) -> ModuleView {
    let (kinds, spans, error) = wasm::parts_of(bytes);
    ModuleView {
        parts: Seq::new(kinds.len(), |i: int| part_at(bytes, kinds[i], spans[i])),
        error,
    }
}

/// A module is like itself.
pub proof fn lemma_same_module(a: ModuleView)
    ensures
        same_module(a, a),
{
}

/// Read the instructions of a range of a section.
fn read_listing(section: &[u8], at: u64, s: Span) -> (r: Listing)
    requires
        s.start <= s.end <= section@.len(),
        at + section@.len() <= u64::MAX,
    ensures
        same_listing(r.deep_view(), listing_at(section@, at, s)),
{
    let bytes = vstd::slice::slice_subrange(section, s.start, s.end);
    wasm::read_operators(bytes, at + s.start as u64)
}

/// Read an import section.
fn read_imports(bytes: &[u8], at: u64) -> (r: (Vec<Import>, Option<String>))
    requires
        at + bytes@.len() <= u64::MAX,
    ensures
        r.0.deep_view().len() == wasm::import_names_of(bytes@, at).0.len(),
        forall|i: int|
            0 <= i < r.0@.len() ==> (#[trigger] r.0@[i]).deep_view() == (ImportView {
                module: wasm::import_names_of(bytes@, at).0[i].0,
                name: wasm::import_names_of(bytes@, at).0[i].1,
                ty: wasm::import_types_in(bytes@)[i],
            }),
        r.1.deep_view() == wasm::import_names_of(bytes@, at).1,
{
    let (names, error) = wasm::read_import_names(bytes, at);
    let types = wasm::read_import_types(bytes);
    let ghost named = wasm::import_names_of(bytes@, at).0;
    let ghost typed = wasm::import_types_in(bytes@);
    assert(names.deep_view() == named);
    let mut out: Vec<Import> = Vec::new();
    let mut i: usize = 0;
    while i < names.len()
        invariant
            i <= names@.len() == types@.len(),
            names.deep_view() == named,
            types.deep_view() == typed,
            out@.len() == i,
            forall|k: int|
                0 <= k < i ==> (#[trigger] out@[k]).deep_view() == (ImportView {
                    module: named[k].0,
                    name: named[k].1,
                    ty: typed[k],
                }),
        decreases names@.len() - i,
    {
        assert(names.deep_view()[i as int] == named[i as int]);
        assert(types.deep_view()[i as int] == typed[i as int]);
        out.push(
            Import {
                module: names[i].0.clone(),
                name: names[i].1.clone(),
                ty: types[i].duplicate(),
            },
        );
        i = i + 1;
    }
    (out, error)
}

/// Read a global section.
fn read_globals(module: &[u8], span: Span) -> (r: (Vec<Global>, Option<String>))
    requires
        span.start <= span.end <= module@.len(),
    ensures
        same_part(
            PartView::Globals(r.0.deep_view(), r.1.deep_view()),
            part_at(module@, PartKind::Globals, span),
        ),
{
    let bytes = vstd::slice::slice_subrange(module, span.start, span.end);
    let (found, error) = wasm::read_globals(bytes, span.start as u64);
    let ghost listed = wasm::globals_of(slice_of(module@, span), span.start as u64).0;
    assert(found.deep_view() == listed);
    let mut out: Vec<Global> = Vec::new();
    let mut i: usize = 0;
    while i < found.len()
        invariant
            i <= found@.len(),
            span.start <= span.end <= module@.len(),
            bytes@ == slice_of(module@, span),
            found.deep_view() == listed,
            forall|k: int|
                0 <= k < found@.len() ==> wasm::span_within(
                    (#[trigger] found@[k]).init,
                    0,
                    bytes@.len() as int,
                ),
            out@.len() == i,
            forall|k: int|
                0 <= k < i ==> {
                    &&& (#[trigger] out@[k]).content@ == listed[k].content
                    &&& out@[k].mutable == listed[k].mutable
                    &&& same_listing(
                        out@[k].init.deep_view(),
                        listing_at(bytes@, span.start as u64, listed[k].init),
                    )
                },
        decreases found@.len() - i,
    {
        assert(found.deep_view()[i as int] == listed[i as int]);
        let init = read_listing(bytes, span.start as u64, found[i].init);
        out.push(Global { content: found[i].content.clone(), mutable: found[i].mutable, init });
        i = i + 1;
    }
    (out, error)
}

/// Read an element segment.
fn read_element(section: &[u8], at: u64, kind: ElementKind, items: ElementItems) -> (r: Element)
    requires
        at + section@.len() <= u64::MAX,
        kind matches ElementKind::Active { offset, .. } ==> offset.start <= offset.end
            <= section@.len(),
        wasm::items_span(items).start <= wasm::items_span(items).end <= section@.len(),
    ensures
        same_element(r.deep_view(), element_at(section@, at, kind, items)),
{
    let mode = match kind {
        ElementKind::Passive => Mode::Passive,
        ElementKind::Active { offset, .. } => Mode::Active(read_listing(section, at, offset)),
        ElementKind::Declared => Mode::Declared,
    };
    let functions = match items {
        ElementItems::Functions(s) => {
            let bytes = vstd::slice::slice_subrange(section, s.start, s.end);
            Some(wasm::read_indices(bytes, at + s.start as u64))
        },
        ElementItems::Expressions(_) => None,
    };
    Element { mode, functions }
}

/// Read an element section.
fn read_elements(module: &[u8], span: Span) -> (r: (Vec<Element>, Option<String>))
    requires
        span.start <= span.end <= module@.len(),
    ensures
        same_part(
            PartView::Elements(r.0.deep_view(), r.1.deep_view()),
            part_at(module@, PartKind::Elements, span),
        ),
{
    let bytes = vstd::slice::slice_subrange(module, span.start, span.end);
    let (kinds, error) = wasm::read_element_kinds(bytes, span.start as u64);
    let items = wasm::read_element_items(bytes);
    assert(kinds.deep_view() =~= kinds@);
    assert(items.deep_view() =~= items@);
    let mut out: Vec<Element> = Vec::new();
    let mut i: usize = 0;
    while i < kinds.len()
        invariant
            i <= kinds@.len() == items@.len(),
            span.start <= span.end <= module@.len(),
            bytes@ == slice_of(module@, span),
            forall|k: int|
                0 <= k < kinds@.len() ==> ((#[trigger] kinds@[k]) matches ElementKind::Active {
                    offset,
                    ..
                } ==> wasm::span_within(offset, 0, bytes@.len() as int)),
            forall|k: int|
                0 <= k < items@.len() ==> wasm::span_within(
                    wasm::items_span(#[trigger] items@[k]),
                    0,
                    bytes@.len() as int,
                ),
            out@.len() == i,
            forall|k: int|
                0 <= k < i ==> same_element(
                    (#[trigger] out@[k]).deep_view(),
                    element_at(bytes@, span.start as u64, kinds@[k], items@[k]),
                ),
        decreases kinds@.len() - i,
    {
        out.push(read_element(bytes, span.start as u64, kinds[i], items[i]));
        i = i + 1;
    }
    (out, error)
}

/// Read a data section.
fn read_segments(module: &[u8], span: Span) -> (r: (Vec<Segment>, Option<String>))
    requires
        span.start <= span.end <= module@.len(),
    ensures
        same_part(
            PartView::Data(r.0.deep_view(), r.1.deep_view()),
            part_at(module@, PartKind::Data, span),
        ),
{
    let bytes = vstd::slice::slice_subrange(module, span.start, span.end);
    let (found, error) = wasm::read_data(bytes, span.start as u64);
    let ghost listed = wasm::data_of(slice_of(module@, span), span.start as u64).0;
    assert(found.deep_view() == listed);
    let mut out: Vec<Segment> = Vec::new();
    let mut i: usize = 0;
    while i < found.len()
        invariant
            i <= found@.len(),
            span.start <= span.end <= module@.len(),
            bytes@ == slice_of(module@, span),
            found.deep_view() == listed,
            forall|k: int|
                0 <= k < found@.len() ==> ((#[trigger] found@[k]).offset matches Some(o)
                    ==> wasm::span_within(o, 0, bytes@.len() as int)),
            out@.len() == i,
            forall|k: int|
                0 <= k < i ==> same_segment(
                    (#[trigger] out@[k]).deep_view(),
                    SegmentView {
                        offset: match listed[k].offset {
                            Some(s) => Some(listing_at(bytes@, span.start as u64, s)),
                            None => None,
                        },
                        bytes: listed[k].bytes,
                    },
                ),
        decreases found@.len() - i,
    {
        assert(found.deep_view()[i as int] == listed[i as int]);
        let offset = match found[i].offset {
            Some(s) => Some(read_listing(bytes, span.start as u64, s)),
            None => None,
        };
        out.push(Segment { offset, bytes: vstd::slice::slice_to_vec(found[i].bytes.as_slice()) });
        i = i + 1;
    }
    (out, error)
}

/// Read a function body.
pub(crate) fn read_body(bytes: &[u8], at: u64) -> (r: Body)
    requires
        at + bytes@.len() <= u64::MAX,
    ensures
        same_body(r.deep_view(), body_of(bytes@, at)),
{
    let locals = wasm::read_locals(bytes, at);
    let code = match wasm::read_code_start(bytes, at) {
        Ok(start) => {
            let code = vstd::slice::slice_subrange(bytes, start, bytes.len());
            assert(code@ =~= bytes@.skip(start as int));
            Ok(wasm::read_operators(code, at + start as u64))
        },
        Err(error) => Err(error),
    };
    Body { locals, code }
}

/// Read one part of a module.
pub fn read_part(module: &[u8], kind: PartKind, span: Span) -> (r: Part)
    requires
        wasm::is_delimited(kind) ==> span.start <= span.end <= module@.len(),
    ensures
        same_part(r.deep_view(), part_at(module@, kind, span)),
{
    match kind {
        PartKind::Other | PartKind::CodeStart(_) => return Part::Other,
        PartKind::Start(f) => return Part::Start(f),
        _ => {},
    }
    let bytes = vstd::slice::slice_subrange(module, span.start, span.end);
    let at: u64 = span.start as u64;
    let part = match kind {
        PartKind::Types => {
            let (l, e) = wasm::read_types(bytes, at);
            Part::Types(l, e)
        },
        PartKind::Imports => {
            let (l, e) = read_imports(bytes, at);
            proof {
                let names = wasm::import_names_of(bytes@, at).0;
                let types = wasm::import_types_in(bytes@);
                assert(l.deep_view() =~= Seq::new(
                    names.len(),
                    |i: int| ImportView { module: names[i].0, name: names[i].1, ty: types[i] },
                ));
            }
            Part::Imports(l, e)
        },
        PartKind::Functions => {
            let (l, e) = wasm::read_indices(bytes, at);
            assert(l.deep_view() =~= l@);
            Part::Functions(l, e)
        },
        PartKind::Tables => {
            let (l, e) = wasm::read_tables(bytes, at);
            assert(l.deep_view() =~= l@);
            Part::Tables(l, e)
        },
        PartKind::Memories => {
            let (l, e) = wasm::read_memories(bytes, at);
            assert(l.deep_view() =~= l@);
            Part::Memories(l, e)
        },
        PartKind::Globals => {
            let (l, e) = read_globals(module, span);
            Part::Globals(l, e)
        },
        PartKind::Exports => {
            let (l, e) = wasm::read_exports(bytes, at);
            Part::Exports(l, e)
        },
        PartKind::Elements => {
            let (l, e) = read_elements(module, span);
            Part::Elements(l, e)
        },
        PartKind::Body => Part::Code(read_body(bytes, at)),
        PartKind::Data => {
            let (l, e) = read_segments(module, span);
            Part::Data(l, e)
        },
        _ => Part::Other,
    };
    part
}

/// Read a module.
pub fn read(bytes: &[u8]) -> (r: Module)
    ensures
        same_module(r.deep_view(), module_of(bytes@)),
{
    let kinds = wasm::read_parts(bytes);
    let (spans, error) = wasm::read_spans(bytes);
    let mut parts: Vec<Part> = Vec::new();
    let mut i: usize = 0;
    while i < kinds.len()
        invariant
            i <= kinds@.len() == spans@.len(),
            forall|k: int|
                0 <= k < spans@.len() && wasm::is_delimited(kinds@[k]) ==> wasm::span_within(
                    #[trigger] spans@[k],
                    0,
                    bytes@.len() as int,
                ),
            parts@.len() == i,
            forall|k: int|
                0 <= k < i ==> same_part(
                    (#[trigger] parts@[k]).deep_view(),
                    part_at(bytes@, kinds@[k], spans@[k]),
                ),
        decreases kinds@.len() - i,
    {
        parts.push(read_part(bytes, kinds[i], spans[i]));
        i = i + 1;
    }
    Module { parts, error }
}

/// Is this what is read of the instructions in some bytes of a section?
pub open spec fn lists_between(l: ListingView, section: Seq<u8>, from: int, to: int) -> bool {
    (l.ops, l.complete) == wasm::operators_in(section.subrange(from, to))
}

/// An element segment is read as what it is: active at the expression that places it, passive or
/// declared, with the functions it lists, or none where it lists expressions.
pub proof fn law_an_element_segment_is_read_as_it_is(section: Seq<u8>, at: u64, k: int)
    ensures
        part_of(PartKind::Elements, section, at) matches PartView::Elements(list, error) && (error
            is None <==> wasm::element_kinds_in(section).1) && list.len()
            == wasm::element_kinds_in(section).0.len() && (0 <= k < list.len() ==> {
            let kind = wasm::element_kinds_in(section).0[k];
            let items = wasm::element_items_in(section)[k];
            &&& kind is Passive <==> list[k].mode is Passive
            &&& kind is Declared <==> list[k].mode is Declared
            &&& kind matches ElementKind::Active { offset, .. } ==> (list[k].mode
                matches ModeView::Active(l) && lists_between(
                l,
                section,
                offset.start as int,
                offset.end as int,
            ))
            &&& items matches ElementItems::Functions(s) ==> (list[k].functions matches Some(
                (found, error),
            ) && (found, error is None) == wasm::indices_in(
                section.subrange(s.start as int, s.end as int),
            ))
            &&& items is Expressions ==> list[k].functions is None
        }),
{
}

/// A global and a data segment are read with their own expressions: the initializer, and the place
/// where an active segment goes. What else is said of them is kept.
pub proof fn law_expressions_are_read_where_they_are(section: Seq<u8>, at: u64, k: int)
    ensures
        part_of(PartKind::Globals, section, at) matches PartView::Globals(list, error) && (error
            is None <==> wasm::globals_in(section).1) && list.len()
            == wasm::globals_in(section).0.len() && (0 <= k < list.len() ==> {
            let g = wasm::globals_in(section).0[k];
            &&& list[k].content == g.content
            &&& list[k].mutable == g.mutable
            &&& lists_between(list[k].init, section, g.init.start as int, g.init.end as int)
        }),
        part_of(PartKind::Data, section, at) matches PartView::Data(list, error) && (error is None
            <==> wasm::data_in(section).1) && list.len() == wasm::data_in(section).0.len() && (0
            <= k < list.len() ==> {
            let d = wasm::data_in(section).0[k];
            &&& list[k].bytes == d.bytes
            &&& d.offset is None <==> list[k].offset is None
            &&& d.offset matches Some(s) ==> (list[k].offset matches Some(l) && lists_between(
                l,
                section,
                s.start as int,
                s.end as int,
            ))
        }),
{
}

/// A body is read as its locals, and the instructions behind them.
pub proof fn law_a_body_is_read_behind_its_locals(body: Seq<u8>, at: u64)
    ensures
        part_of(PartKind::Body, body, at) matches PartView::Code(b) && (b.locals.0, b.locals.1
            is None) == wasm::locals_in(body) && (match wasm::code_start_in(body) {
            Some(start) => start <= body.len() ==> (b.code matches Ok(l) && lists_between(
                l,
                body,
                start as int,
                body.len() as int,
            )),
            None => b.code is Err,
        }),
{
    if let Some(start) = wasm::code_start_in(body) {
        if start <= body.len() {
            assert(body.skip(start as int) =~= body.subrange(start as int, body.len() as int));
        }
    }
}

/// The plain lists of a module are read as they are: types, imports with their names, the types of
/// functions, tables, memories and exports; and so is the start function.
pub proof fn law_lists_are_read_as_they_are(section: Seq<u8>, at: u64, f: u32, k: int)
    ensures
        part_of(PartKind::Types, section, at) matches PartView::Types(list, error) && (list, error
            is None) == wasm::types_in(section),
        part_of(PartKind::Functions, section, at) matches PartView::Functions(list, error) && (
        list, error is None) == wasm::indices_in(section),
        part_of(PartKind::Tables, section, at) matches PartView::Tables(list, error) && (list, error
            is None) == wasm::tables_in(section),
        part_of(PartKind::Memories, section, at) matches PartView::Memories(list, error) && (list,
            error is None) == wasm::memories_in(section),
        part_of(PartKind::Exports, section, at) matches PartView::Exports(list, error) && (list,
            error is None) == wasm::exports_in(section),
        part_of(PartKind::Imports, section, at) matches PartView::Imports(list, error) && (error
            is None <==> wasm::import_names_in(section).1) && list.len()
            == wasm::import_names_in(section).0.len() && (0 <= k < list.len() ==> (
        list[k].module, list[k].name) == wasm::import_names_in(section).0[k] && list[k].ty
            == wasm::import_types_in(section)[k]),
        part_of(PartKind::Start(f), section, at) == PartView::Start(f),
{
}

/// A module is read part by part: each from its own bytes, and as the kind of part it is.
pub proof fn law_a_module_is_read_part_by_part(bytes: Seq<u8>, k: int)
    ensures
        ({
            let (kinds, spans, error) = wasm::parts_of(bytes);
            let m = module_of(bytes);
            &&& m.error == error
            &&& m.parts.len() == kinds.len()
            &&& 0 <= k < kinds.len() ==> m.parts[k] == part_of(
                kinds[k],
                bytes.subrange(spans[k].start as int, spans[k].end as int),
                spans[k].start as u64,
            )
        }),
{
}

} // verus!
