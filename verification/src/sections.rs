//! How a module in canonical form is laid out.
//!
//! Which sections are written of which parts, under which numbers and in which order, and what the
//! small ones hold.
use crate::bytes::{concat_all, lemma_concat_all_push};
use crate::canon::{
    Config, Emitted, ErrorView, Facts, FloatWidth, Rewriting, all_shifted, body_operators,
    body_rewritten, code_bytes, code_rewritten, emitted_bytes, export_index,
    expression_renumbered, expression_rewritten, expressions_rewritten, facts_with, fixed_after,
    fixed_before, instructions_rewritten, instrumented, items_rewritten, needs_scratch, no_facts,
    numbers, only_originals, original_bytes, part_rewritten, pieces, renumbered_to, runs,
    scratch_locals, section_renumbered, segment_bytes, segment_rewritten, segments_rewritten,
    shifted, sized_runs, surveyed, uses_scratch, with_imports,
};
use crate::encode::{self, is_delimited, law_leb_reads_back, leb, leb_number};
use crate::engine::image::declared_locals;
use crate::engine::numeric::Kind;
use crate::engine::operator::Operator;
use crate::fold::each;
use crate::module::{BodyView, ImportView, ModuleView, PartView, body_of};
use crate::wasm::{
    self, DataView, ElementItems, ElementKind, ExportView, GlobalTypeView, ImportTypeView,
    ListingView, PartKind, Span,
};
use vstd::prelude::*;

verus! {

/// The numbers of the sections a part becomes, if it ends a section or is one.
pub open spec fn section_numbers(w: Rewriting, f: Facts, kind: PartKind) -> Seq<u8> {
    match kind {
        PartKind::Types => seq![1u8],
        PartKind::Imports => seq![2u8],
        PartKind::Functions => if f.had_imports || w.imported {
            seq![3u8]
        } else {
            seq![2u8, 3u8]
        },
        PartKind::Tables => seq![4u8],
        PartKind::Memories => seq![5u8],
        PartKind::Globals => seq![6u8],
        PartKind::Exports => seq![7u8],
        PartKind::Start(_) => seq![8u8],
        PartKind::Elements => seq![9u8],
        PartKind::CodeStart(n) => if n == 0 {
            seq![10u8]
        } else {
            Seq::empty()
        },
        PartKind::Body => if w.bodies.len() + 1 == w.expected {
            seq![10u8]
        } else {
            Seq::empty()
        },
        PartKind::Data => seq![11u8],
        PartKind::DataCount(_) => seq![12u8],
        PartKind::Tags => seq![13u8],
        PartKind::Unknown(id) => seq![id],
        PartKind::Other => Seq::empty(),
    }
}

/// A part adds its sections behind those that are there, under their numbers: one of its own, or
/// the code section with its last body. The imports come before the functions where a module has
/// none.
pub proof fn law_sections_keep_their_numbers(
    w: Rewriting,
    f: Facts,
    config: Config,
    kind: PartKind,
    bytes: Seq<u8>,
    at: u64,
)
    ensures
        part_rewritten(w, f, config, kind, bytes, at) matches Ok(v) ==> {
            let numbers = section_numbers(w, f, kind);
            &&& v.sections.len() == w.sections.len() + numbers.len()
            &&& v.sections.take(w.sections.len() as int) == w.sections
            &&& forall|i: int|
                0 <= i < numbers.len() ==> v.sections[w.sections.len() + i].0
                    == #[trigger] numbers[i]
        },
{
    if let Ok(v) = part_rewritten(w, f, config, kind, bytes, at) {
        assert(v.sections.take(w.sections.len() as int) =~= w.sections);
    }
}

/// What the start section and the count of data segments hold is a number: the function by its new
/// one, and the count. A section of an unknown number is kept as it is.
pub proof fn law_small_sections_hold_their_numbers(
    w: Rewriting,
    f: Facts,
    config: Config,
    kind: PartKind,
    bytes: Seq<u8>,
    at: u64,
)
    requires
        f.imported <= u32::MAX,
    ensures
        kind matches PartKind::Start(function) ==> (part_rewritten(w, f, config, kind, bytes, at)
            matches Ok(v) && is_delimited(v.sections.last().1) && (function < u32::MAX ==> leb_number(
            v.sections.last().1,
        ) == if function < f.imported {
            function as int
        } else {
            function + 1
        })),
        kind matches PartKind::DataCount(n) ==> (part_rewritten(w, f, config, kind, bytes, at)
            matches Ok(v) && is_delimited(v.sections.last().1) && leb_number(v.sections.last().1)
            == n),
        kind matches PartKind::Unknown(id) ==> (part_rewritten(w, f, config, kind, bytes, at)
            matches Ok(v) && v.sections.last().1 == bytes),
{
    match kind {
        PartKind::Start(function) => law_leb_reads_back(
            shifted(function, f.imported as u32) as nat,
        ),
        PartKind::DataCount(n) => law_leb_reads_back(n as nat),
        _ => {},
    }
}

/// A module in canonical form begins as every module does.
pub proof fn law_a_module_begins_with_its_header(module: Seq<u8>, config: Config)
    ensures
        instrumented(module, config) matches Ok(b) ==> b.len() >= 8 && b.take(8) == seq![
            0x00u8,
            0x61,
            0x73,
            0x6d,
            0x01,
            0x00,
            0x00,
            0x00,
        ] && b.take(8) == module.take(8),
{
    if let Ok(b) = instrumented(module, config) {
        assert(b.take(8) =~= seq![0x00u8, 0x61, 0x73, 0x6d, 0x01, 0x00, 0x00, 0x00]);
        assert(b.take(8) =~= module.take(8));
    }
}

/// An export of a function names it by its new number, and an export of anything else stays.
pub proof fn law_only_functions_are_renumbered(e: ExportView, imported: u32)
    requires
        e.index < u32::MAX,
    ensures
        export_index(e, imported) == if (e.kind is Func || e.kind is FuncExact) && e.index
            >= imported {
            e.index + 1
        } else {
            e.index as int
        },
{
}

/// An instruction that names a function names it by its new number: its opcode, and the number. Any
/// other is written as it was.
pub proof fn law_only_references_to_functions_are_rewritten(
    op: Operator,
    written: Seq<u8>,
    imported: u32,
)
    ensures
        ({
            let b = original_bytes(op, written, imported);
            let named = match op {
                Operator::Call { function_index } => Some((0x10u8, function_index)),
                Operator::ReturnCall { function_index, .. } => Some((0x12u8, function_index)),
                Operator::RefFunc { function_index, .. } => Some((0xd2u8, function_index)),
                _ => None,
            };
            match named {
                None => b == written,
                Some((opcode, function)) => b.len() > 1 && b[0] == opcode && is_delimited(
                    b.drop_first(),
                ) && (function < u32::MAX ==> leb_number(b.drop_first()) == if function < imported {
                    function as int
                } else {
                    function + 1
                }),
            }
        }),
{
    let b = original_bytes(op, written, imported);
    match op {
        Operator::Call { function_index }
        | Operator::ReturnCall { function_index, .. }
        | Operator::RefFunc { function_index, .. } => {
            law_leb_reads_back(shifted(function_index, imported) as nat);
            assert(b.drop_first() =~= leb(shifted(function_index, imported) as nat));
        },
        _ => {},
    }
}

/// The first byte of an element segment tells its form. Its lowest bit says that it is not active;
/// the next that it is declared only or names its table; the third that it lists expressions. Then
/// come where it goes, what it lists unless the form tells, and the list.
pub proof fn law_a_segment_tells_its_form(
    kind: ElementKind,
    offset: Seq<u8>,
    expressions: bool,
    ty: Seq<u8>,
    items: Seq<u8>,
)
    ensures
        ({
            let b = segment_bytes(kind, offset, expressions, ty, items);
            let active = kind is Active;
            &&& b.len() >= 1 + items.len()
            &&& b.skip(b.len() - items.len()) == items
            &&& b[0] < 8
            &&& (b[0] % 2 == 1) == !active
            &&& (b[0] >= 4) == expressions
            &&& !active ==> ((b[0] / 2) % 2 == 1) == (kind is Declared)
            &&& active && ((b[0] / 2) % 2 == 0) ==> b == seq![b[0]] + offset + items && !(
            kind matches ElementKind::Active { table_index: Some(_), .. }) && (expressions ==> ty
                == seq![0x70u8])
            &&& kind matches ElementKind::Active { table_index: Some(t), .. } ==> b == seq![b[0]]
                + leb(t as nat) + offset + (if expressions {
                ty
            } else {
                seq![0u8]
            }) + items
            &&& active && ((b[0] / 2) % 2 == 1) && !(kind matches ElementKind::Active {
                table_index: Some(_),
                ..
            }) ==> b == seq![b[0]] + seq![0u8] + offset + ty + items
            &&& !active ==> b == seq![b[0]] + (if expressions {
                ty
            } else {
                seq![0u8]
            }) + items
        }),
{
    let b = segment_bytes(kind, offset, expressions, ty, items);
    assert(b.skip(b.len() - items.len()) =~= items);
    if let ElementKind::Active { table_index, .. } = kind {
        if let Some(t) = table_index {
            let listed = if expressions {
                ty
            } else {
                seq![0u8]
            };
            assert(b =~= seq![b[0]] + leb(t as nat) + offset + listed + items);
        } else if (b[0] / 2) % 2 == 0 {
            assert(b =~= seq![b[0]] + offset + items);
        } else {
            assert(leb(0) =~= seq![0u8]);
            assert(b =~= seq![b[0]] + seq![0u8] + offset + ty + items);
        }
    } else {
        let listed = if expressions {
            ty
        } else {
            seq![0u8]
        };
        assert(b =~= seq![b[0]] + listed + items);
    }
}

/// The scratch locals of a function are behind its parameters and the locals it declares, one for
/// each width, and the search for them fails exactly if one would have no number.
pub proof fn law_scratch_locals_are_new(params: u32, declared: nat, f32s: bool)
    ensures
        match scratch_locals(params, declared, f32s) {
            Ok((a, b)) => a == params + declared && b == params + declared + (if f32s {
                1int
            } else {
                0
            }),
            Err(e) => e is LocalIndexOverflow && params + declared + (if f32s {
                1int
            } else {
                0
            }) > u32::MAX,
        },
{
}

/// Is this the float width a rendering of a type names?
pub open spec fn is_width(text: Seq<char>, w: Option<FloatWidth>) -> bool {
    match w {
        Some(FloatWidth::F32) => text == "F32"@,
        Some(FloatWidth::F64) => text == "F64"@,
        None => text != "F32"@ && text != "F64"@,
    }
}

/// How many functions some imports are.
pub open spec fn functions_among(imports: Seq<ImportView>) -> nat
    decreases imports.len(),
{
    if imports.len() == 0 {
        0
    } else {
        functions_among(imports.drop_last()) + (if imports.last().ty is Func {
            1nat
        } else {
            0
        })
    }
}

/// The types of the globals among some imports.
pub open spec fn globals_among(imports: Seq<ImportView>) -> Seq<Seq<char>>
    decreases imports.len(),
{
    if imports.len() == 0 {
        Seq::empty()
    } else {
        match imports.last().ty {
            ImportTypeView::Global(content) => globals_among(imports.drop_last()).push(content),
            _ => globals_among(imports.drop_last()),
        }
    }
}

/// Do the float widths behind those that were there belong to globals of these types, in order?
pub open spec fn adds_widths(
    before: Seq<Option<FloatWidth>>,
    after: Seq<Option<FloatWidth>>,
    types: Seq<Seq<char>>,
) -> bool {
    &&& after.len() == before.len() + types.len()
    &&& after.take(before.len() as int) == before
    &&& forall|i: int|
        0 <= i < types.len() ==> is_width(#[trigger] types[i], after[before.len() + i])
}

proof fn lemma_imports(f: Facts, imports: Seq<ImportView>)
    ensures
        ({
            let g = with_imports(f, imports);
            &&& g.imported == f.imported + functions_among(imports)
            &&& g == (Facts { imported: g.imported, globals: g.globals, ..f })
            &&& adds_widths(f.globals, g.globals, globals_among(imports))
        }),
    decreases imports.len(),
{
    lemma_strings();
    if imports.len() > 0 {
        let before = imports.drop_last();
        lemma_imports(f, before);
        let (h, g) = (with_imports(f, before), with_imports(f, imports));
        assert(g.globals.take(f.globals.len() as int) =~= h.globals.take(f.globals.len() as int));
        assert forall|i: int| 0 <= i < globals_among(imports).len() implies is_width(
            #[trigger] globals_among(imports)[i],
            g.globals[f.globals.len() + i],
        ) by {
            if i < globals_among(before).len() {
                assert(is_width(globals_among(before)[i], h.globals[f.globals.len() + i]));
            }
        }
    } else {
        assert(f.globals.take(f.globals.len() as int) =~= f.globals);
    }
}

proof fn lemma_strings()
    ensures
        "F32"@ != "F64"@,
        "F32"@ != "I32"@,
        "F32"@ != "I64"@,
        "F64"@ != "I32"@,
        "F64"@ != "I64"@,
{
    reveal_strlit("F32");
    reveal_strlit("F64");
    reveal_strlit("I32");
    reveal_strlit("I64");
    assert("F32"@[0] == 'F' && "F64"@[0] == 'F' && "I32"@[0] == 'I' && "I64"@[0] == 'I');
    assert("F32"@[1] == '3' && "F64"@[1] == '6');
}

/// What is gathered of a module's parts before anything is written: how many functions it imports,
/// how many parameters each type has, the type of each function, and which globals are floats.
pub proof fn law_facts_are_gathered(f: Facts, p: PartView)
    ensures
        p matches PartView::Imports(list, None) ==> (facts_with(f, p) matches Ok(g) && g.imported
            == f.imported + functions_among(list) && g.had_imports && g.had_types == f.had_types
            && g.type_params == f.type_params && g.function_types == f.function_types
            && adds_widths(f.globals, g.globals, globals_among(list))),
        p matches PartView::Types(list, None) ==> (facts_with(f, p) matches Ok(g) && g == (Facts {
            type_params: g.type_params,
            had_types: true,
            ..f
        }) && g.type_params.len() == f.type_params.len() + list.len() && g.type_params.take(
            f.type_params.len() as int,
        ) == f.type_params && forall|i: int|
            0 <= i < list.len() ==> match #[trigger] list[i] {
                Some((params, _)) => params.len() <= u32::MAX
                    ==> g.type_params[f.type_params.len() + i] == Some(params.len() as u32),
                None => g.type_params[f.type_params.len() + i] is None,
            }),
        p matches PartView::Functions(list, None) ==> (facts_with(f, p) matches Ok(g) && g == (
        Facts { function_types: f.function_types + list, ..f })),
        p matches PartView::Globals(list, None) ==> (facts_with(f, p) matches Ok(g) && g == (Facts {
            globals: g.globals,
            ..f
        }) && g.globals.len() == f.globals.len() + list.len() && g.globals.take(
            f.globals.len() as int,
        ) == f.globals && forall|i: int|
            0 <= i < list.len() ==> is_width(
                (#[trigger] list[i]).content,
                g.globals[f.globals.len() + i],
            )),
{
    lemma_strings();
    match p {
        PartView::Imports(list, None) => {
            lemma_imports(Facts { had_imports: true, ..f }, list);
        },
        PartView::Types(list, None) => {
            let g = facts_with(f, p)->Ok_0;
            assert(g.type_params.take(f.type_params.len() as int) =~= f.type_params);
        },
        PartView::Globals(list, None) => {
            let g = facts_with(f, p)->Ok_0;
            assert(g.globals.take(f.globals.len() as int) =~= f.globals);
        },
        _ => {},
    }
}

/// A module that declares no types has no canonical form.
pub proof fn law_a_module_declares_types(m: ModuleView)
    ensures
        surveyed(m) matches Ok(f) ==> f.had_types && m.error is None,
        surveyed(m) matches Err(e) ==> e is Parse || e is NoTypeSection,
{
    lemma_survey_faults(no_facts(), m.parts);
}

proof fn lemma_survey_faults(f: Facts, parts: Seq<PartView>)
    ensures
        each(f, parts, |f: Facts, p: PartView| facts_with(f, p)) matches Err(e) ==> e
            is Parse,
    decreases parts.len(),
{
    if parts.len() > 0 {
        if let Ok(g) = facts_with(f, parts[0]) {
            lemma_survey_faults(g, parts.drop_first());
        }
    }
}

/// Do instructions that begin at these places make up some bytes?
pub open spec fn is_tiling(starts: Seq<usize>, len: nat) -> bool {
    &&& starts.len() > 0
    &&& starts[0] == 0
    &&& forall|k: int| 0 <= k < starts.len() ==> #[trigger] starts[k] <= len
    &&& forall|k: int, l: int| 0 <= k <= l < starts.len() ==> starts[k] <= starts[l]
}

proof fn lemma_pieces(bytes: Seq<u8>, starts: Seq<usize>, n: nat)
    requires
        is_tiling(starts, bytes.len()),
        n <= starts.len(),
    ensures
        concat_all(pieces(bytes, starts).take(n as int), |b: Seq<u8>| b) == bytes.take(
            if n < starts.len() {
                starts[n as int] as int
            } else {
                bytes.len() as int
            },
        ),
    decreases n,
{
    let all = pieces(bytes, starts);
    let one = |b: Seq<u8>| b;
    if n == 0 {
        assert(all.take(0) =~= Seq::empty());
        assert(bytes.take(0) =~= Seq::empty());
    } else {
        let m = (n - 1) as nat;
        lemma_pieces(bytes, starts, m);
        lemma_concat_all_push(all, m as int, one);
        let end = if n < starts.len() {
            starts[n as int] as int
        } else {
            bytes.len() as int
        };
        assert(starts[m as int] <= end);
        assert(bytes.take(starts[m as int] as int) + all[m as int] =~= bytes.take(end));
    }
}

/// Does an instruction name a function?
pub open spec fn names_function(op: Operator) -> bool {
    op is Call || op is ReturnCall || op is RefFunc
}

proof fn lemma_originals(ops: Seq<Operator>, written: Seq<Seq<u8>>, imported: u32, n: nat)
    requires
        n <= ops.len(),
        written.len() == ops.len(),
        forall|k: int| 0 <= k < ops.len() ==> !names_function(#[trigger] ops[k]),
    ensures
        code_bytes(only_originals(ops.len()).take(n as int), ops, written, imported) == concat_all(
            written.take(n as int),
            |b: Seq<u8>| b,
        ),
    decreases n,
{
    let one = |e: Emitted| emitted_bytes(e, ops, written, imported);
    let all = only_originals(ops.len());
    if n == 0 {
        assert(all.take(0) =~= Seq::empty());
        assert(written.take(0) =~= Seq::empty());
    } else {
        let m = (n - 1) as nat;
        lemma_originals(ops, written, imported, m);
        lemma_concat_all_push(all, m as int, one);
        lemma_concat_all_push(written, m as int, |b: Seq<u8>| b);
        assert(!names_function(ops[m as int]));
    }
}

/// An expression that names no function is renumbered to itself.
pub proof fn law_what_names_no_function_is_kept(
    listing: ListingView,
    bytes: Seq<u8>,
    starts: Seq<usize>,
    imported: u32,
)
    requires
        listing.complete,
        is_tiling(starts, bytes.len()),
        starts.len() == listing.ops.len(),
        forall|k: int| 0 <= k < listing.ops.len() ==> !names_function(#[trigger] listing.ops[k]),
    ensures
        instructions_rewritten(listing, Ok(pieces(bytes, starts)), imported) == Ok::<
            Seq<u8>,
            ErrorView,
        >(bytes),
{
    let n = listing.ops.len();
    let all = pieces(bytes, starts);
    lemma_pieces(bytes, starts, n);
    lemma_originals(listing.ops, all, imported, n);
    assert(all.take(n as int) =~= all);
    assert(only_originals(n).take(n as int) =~= only_originals(n));
    assert(bytes.take(bytes.len() as int) =~= bytes);
}

/// Do expressions of a section lie one behind the other?
pub open spec fn are_in_order(spans: Seq<Option<Span>>, from: int, len: nat) -> bool
    decreases spans.len(),
{
    if spans.len() == 0 {
        from <= len
    } else {
        match spans[0] {
            Some(s) => from <= s.start <= s.end <= len && are_in_order(
                spans.drop_first(),
                s.end as int,
                len,
            ),
            None => are_in_order(spans.drop_first(), from, len),
        }
    }
}

proof fn lemma_kept(
    section: Seq<u8>,
    at: u64,
    spans: Seq<Option<Span>>,
    imported: u32,
    from: int,
)
    requires
        0 <= from <= section.len(),
        are_in_order(spans, from, section.len()),
        forall|k: int|
            0 <= k < spans.len() && (#[trigger] spans[k]) is Some ==> expression_renumbered(
                section,
                at,
                spans[k]->0,
                imported,
            ) == Ok::<_, ErrorView>(
                section.subrange(spans[k]->0.start as int, spans[k]->0.end as int),
            ),
    ensures
        each(
            (section.take(from), from),
            spans,
            |done: (Seq<u8>, int), s: Option<Span>| renumbered_to(section, at, done, s, imported),
        ) matches Ok((out, end)) && 0 <= end <= section.len() && out == section.take(end),
    decreases spans.len(),
{
    if spans.len() > 0 {
        let rest = spans.drop_first();
        assert forall|k: int| 0 <= k < rest.len() && (#[trigger] rest[k]) is Some implies
            expression_renumbered(section, at, rest[k]->0, imported) == Ok::<_, ErrorView>(
            section.subrange(rest[k]->0.start as int, rest[k]->0.end as int),
        ) by {
            assert(rest[k] == spans[k + 1]);
        }
        if let Some(s) = spans[0] {
            let to = s.end as int;
            assert(section.take(from) + section.subrange(from, s.start as int) + section.subrange(
                s.start as int,
                to,
            ) =~= section.take(to));
            lemma_kept(section, at, rest, imported, to);
        } else {
            lemma_kept(section, at, rest, imported, from);
        }
    }
}

/// A section whose expressions stay as they are stays as it is: nothing between them is lost,
/// moved or changed.
pub proof fn law_a_section_is_kept_around_its_expressions(
    section: Seq<u8>,
    at: u64,
    spans: Seq<Option<Span>>,
    imported: u32,
)
    requires
        are_in_order(spans, 0, section.len()),
        forall|k: int|
            0 <= k < spans.len() && (#[trigger] spans[k]) is Some ==> expression_renumbered(
                section,
                at,
                spans[k]->0,
                imported,
            ) == Ok::<_, ErrorView>(
                section.subrange(spans[k]->0.start as int, spans[k]->0.end as int),
            ),
    ensures
        section_renumbered(section, at, spans, imported) == Ok::<Seq<u8>, ErrorView>(section),
{
    lemma_kept(section, at, spans, imported, 0);
    assert(section.take(0) =~= Seq::<u8>::empty());
    let end = each(
        (Seq::<u8>::empty(), 0int),
        spans,
        |done: (Seq<u8>, int), s: Option<Span>| renumbered_to(section, at, done, s, imported),
    )->Ok_0.1;
    assert(section.take(end) + section.skip(end) =~= section);
}

/// Is a float of this width made canonical in front of an instruction, or behind it?
pub open spec fn is_fixed(
    config: Config,
    op: Operator,
    globals: Seq<Option<FloatWidth>>,
    width: FloatWidth,
) -> bool {
    fixed_before(config, op, globals) == Some(width) || fixed_after(config, op) == Some(width)
}

/// A body gets a scratch local of a width exactly if one of its instructions needs it, the one of
/// 32 bits first, and no other local.
pub proof fn law_scratch_locals_are_added_where_used(
    f: Facts,
    config: Config,
    index: nat,
    b: BodyView,
    written: Result<Seq<Seq<u8>>, Seq<char>>,
)
    ensures
        code_rewritten(f, config, index, b, written) matches Ok((more, _)) ==> {
            let ops = b.code->Ok_0.ops;
            let single = exists|i: int|
                0 <= i < ops.len() && is_fixed(
                    config,
                    #[trigger] ops[i],
                    f.globals,
                    FloatWidth::F32,
                );
            let double = exists|i: int|
                0 <= i < ops.len() && is_fixed(
                    config,
                    #[trigger] ops[i],
                    f.globals,
                    FloatWidth::F64,
                );
            more == if single && double {
                seq![Kind::F32, Kind::F64]
            } else if single {
                seq![Kind::F32]
            } else if double {
                seq![Kind::F64]
            } else {
                Seq::empty()
            }
        },
{
    if let Ok((more, _)) = code_rewritten(f, config, index, b, written) {
        let ops = b.code->Ok_0.ops;
        let (single, double) = (FloatWidth::F32, FloatWidth::F64);
        if needs_scratch(config, ops, f.globals, single) {
            let i = choose|i: int|
                0 <= i < ops.len() && uses_scratch(config, #[trigger] ops[i], f.globals, single);
            assert(is_fixed(config, ops[i], f.globals, single));
        }
        if needs_scratch(config, ops, f.globals, double) {
            let i = choose|i: int|
                0 <= i < ops.len() && uses_scratch(config, #[trigger] ops[i], f.globals, double);
            assert(is_fixed(config, ops[i], f.globals, double));
        }
        assert forall|i: int, w: FloatWidth|
            0 <= i < ops.len() && is_fixed(config, #[trigger] ops[i], f.globals, w) implies
            #[trigger] needs_scratch(config, ops, f.globals, w) by {
            assert(uses_scratch(config, ops[i], f.globals, w));
        }
        assert(Seq::<Kind>::empty() + Seq::<Kind>::empty() =~= Seq::empty());
        assert(seq![Kind::F32] + Seq::<Kind>::empty() =~= seq![Kind::F32]);
        assert(Seq::<Kind>::empty() + seq![Kind::F64] =~= seq![Kind::F64]);
        assert(seq![Kind::F32] + seq![Kind::F64] =~= seq![Kind::F32, Kind::F64]);
    }
}

/// A body is rewritten exactly if there is a function type for it, its locals can be numbered with
/// the scratch locals behind them, and it was read and can be written to its end. Where it is not,
/// the reason told is true.
pub proof fn law_a_body_is_refused_for_a_reason(
    f: Facts,
    config: Config,
    index: nat,
    b: BodyView,
    written: Result<Seq<Seq<u8>>, Seq<char>>,
)
    ensures
        code_rewritten(f, config, index, b, written) matches Err(e) ==> match e {
            ErrorView::BodyWithoutSignature(i) => i == index && index >= f.function_types.len(),
            ErrorView::NotAFunctionType(t) => index < f.function_types.len() && t
                == f.function_types[index as int] && (t >= f.type_params.len()
                || f.type_params[t as int] is None),
            ErrorView::LocalIndexOverflow => {
                let t = f.function_types[index as int];
                f.type_params[t as int]->0 + declared_locals(b.locals.0, b.locals.0.len()) + 1
                    > u32::MAX
            },
            ErrorView::Parse(detail) => b.locals.1 == Some(detail) || b.code == Err::<
                ListingView,
                _,
            >(detail) || (b.code matches Ok(l) && !l.complete && detail == l.error) || written
                == Err::<Seq<Seq<u8>>, _>(detail),
            ErrorView::NoTypeSection => false,
        },
        code_rewritten(f, config, index, b, written) is Ok ==> index < f.function_types.len()
            && b.locals.1 is None && (b.code matches Ok(l) && l.complete) && written is Ok,
{
}

/// What a list of bytes holds behind its count.
pub open spec fn behind_count(b: Seq<u8>, count: nat) -> Seq<u8> {
    b.skip(leb(count).len() as int)
}

/// A list is written as how many entries it has, and then each of them in order: a number as it is
/// encoded, a run of bytes as it is, or behind its own length.
pub proof fn law_lists_are_written_in_order(
    list: Seq<u32>,
    n: u32,
    chunks: Seq<Seq<u8>>,
    b: Seq<u8>,
)
    ensures
        leb(list.len()).is_prefix_of(numbers(list)),
        behind_count(numbers(Seq::empty()), 0).len() == 0,
        behind_count(numbers(list.push(n)), list.len() + 1) == behind_count(
            numbers(list),
            list.len(),
        ) + leb(n as nat),
        leb(chunks.len()).is_prefix_of(runs(chunks)),
        behind_count(runs(Seq::empty()), 0).len() == 0,
        behind_count(runs(chunks.push(b)), chunks.len() + 1) == behind_count(
            runs(chunks),
            chunks.len(),
        ) + b,
        leb(chunks.len()).is_prefix_of(sized_runs(chunks)),
        behind_count(sized_runs(Seq::empty()), 0).len() == 0,
        behind_count(sized_runs(chunks.push(b)), chunks.len() + 1) == behind_count(
            sized_runs(chunks),
            chunks.len(),
        ) + leb(b.len()) + b,
{
    let (number, run, sized) = (
        |n: u32| leb(n as nat),
        |b: Seq<u8>| b,
        |b: Seq<u8>| leb(b.len()) + b,
    );
    let (more, longer) = (list.push(n), chunks.push(b));
    lemma_concat_all_push(more, list.len() as int, number);
    lemma_concat_all_push(longer, chunks.len() as int, run);
    lemma_concat_all_push(longer, chunks.len() as int, sized);
    assert(more.take(list.len() as int) =~= list);
    assert(more.take(list.len() as int + 1) =~= more);
    assert(longer.take(chunks.len() as int) =~= chunks);
    assert(longer.take(chunks.len() as int + 1) =~= longer);
    lemma_behind(leb(list.len()), concat_all(list, number));
    lemma_behind(leb(more.len()), concat_all(more, number));
    lemma_behind(leb(chunks.len()), concat_all(chunks, run));
    lemma_behind(leb(longer.len()), concat_all(longer, run));
    lemma_behind(leb(chunks.len()), concat_all(chunks, sized));
    lemma_behind(leb(longer.len()), concat_all(longer, sized));
    lemma_behind(leb(0), Seq::<u8>::empty());
    assert(concat_all(chunks, sized) + (leb(b.len()) + b) =~= concat_all(chunks, sized) + leb(
        b.len(),
    ) + b);
}

proof fn lemma_behind(a: Seq<u8>, b: Seq<u8>)
    ensures
        a.is_prefix_of(a + b),
        (a + b).skip(a.len() as int) == b,
{
    assert((a + b).skip(a.len() as int) =~= b);
    assert((a + b).take(a.len() as int) =~= a);
}

/// The functions an element segment lists are written by their new numbers, in order.
pub proof fn law_listed_functions_are_renumbered(
    section: Seq<u8>,
    at: u64,
    s: Span,
    imported: u32,
    k: int,
)
    ensures
        ({
            let (list, whole) = wasm::indices_in(
                section.subrange(s.start as int, s.end as int),
            );
            let moved = all_shifted(list, imported);
            &&& !whole ==> items_rewritten(section, at, ElementItems::Functions(s), imported) is Err
            &&& whole ==> items_rewritten(section, at, ElementItems::Functions(s), imported) == Ok::<
                _,
                ErrorView,
            >(numbers(moved))
            &&& moved.len() == list.len()
            &&& 0 <= k < list.len() && list[k] < u32::MAX ==> moved[k] == if list[k] < imported {
                list[k] as int
            } else {
                list[k] + 1
            }
        }),
{
}

/// The meter is imported as `charge` of `cairn`, behind what a module imports, with the type that is
/// added behind its types: one that takes a 32-bit integer.
pub proof fn law_the_meter_is_imported_with_its_type(
    w: Rewriting,
    f: Facts,
    config: Config,
    bytes: Seq<u8>,
    at: u64,
)
    requires
        f.type_params.len() <= u32::MAX,
    ensures
        ({
            let index = f.type_params.len() as u32;
            let imports = encode::imports_written(bytes, "cairn"@, "charge"@, index);
            let types = encode::types_written(bytes, seq![Kind::I32]);
            &&& part_rewritten(w, f, config, PartKind::Imports, bytes, at) is Ok <==> imports is Some
            &&& imports matches Some(b) ==> (part_rewritten(w, f, config, PartKind::Imports, bytes, at)
                matches Ok(v) && v.imported && v.sections.last() == (2u8, b))
            &&& part_rewritten(w, f, config, PartKind::Types, bytes, at) is Ok <==> types is Some
            &&& types matches Some(b) ==> (part_rewritten(w, f, config, PartKind::Types, bytes, at)
                matches Ok(v) && v.sections.last() == (1u8, b))
        }),
{
}

/// A module that imports nothing gets an import section of its own, with the meter alone, in front
/// of its functions.
pub proof fn law_the_meter_is_always_imported(
    w: Rewriting,
    f: Facts,
    config: Config,
    bytes: Seq<u8>,
    at: u64,
)
    requires
        f.type_params.len() <= u32::MAX,
        !f.had_imports,
        !w.imported,
    ensures
        part_rewritten(w, f, config, PartKind::Functions, bytes, at) matches Ok(v) ==> {
            let n = w.sections.len() as int;
            &&& v.imported
            &&& v.sections.len() == n + 2
            &&& v.sections[n].0 == 2
            &&& encode::imports_written(
                seq![0u8],
                "cairn"@,
                "charge"@,
                f.type_params.len() as u32,
            ) == Some(v.sections[n].1)
            &&& v.sections[n + 1] == (3u8, numbers(wasm::indices_in(bytes).0))
        },
{
}

proof fn lemma_each_written<T>(
    done: Seq<Seq<u8>>,
    items: Seq<T>,
    write: spec_fn(T) -> Result<Seq<u8>, ErrorView>,
)
    ensures
        each(
            done,
            items,
            |done: Seq<Seq<u8>>, t: T|
                match write(t) {
                    Ok(b) => Ok(done.push(b)),
                    Err(e) => Err(e),
                },
        ) matches Ok(list) ==> {
            &&& list.len() == done.len() + items.len()
            &&& list.take(done.len() as int) == done
            &&& forall|k: int|
                0 <= k < items.len() ==> write(#[trigger] items[k]) == Ok::<_, ErrorView>(
                    list[done.len() + k],
                )
        },
    decreases items.len(),
{
    let one = |done: Seq<Seq<u8>>, t: T|
        match write(t) {
            Ok(b) => Ok::<_, ErrorView>(done.push(b)),
            Err(e) => Err(e),
        };
    if items.len() == 0 {
        assert(done.take(done.len() as int) =~= done);
    } else if let Ok(b) = write(items[0]) {
        let (more, rest) = (done.push(b), items.drop_first());
        lemma_each_written(more, rest, write);
        if let Ok(list) = each(more, rest, one) {
            assert(list.take(done.len() as int) =~= list.take(more.len() as int).drop_last());
            assert(list[done.len() as int] == list.take(more.len() as int)[done.len() as int]);
            assert forall|k: int| 0 <= k < items.len() implies write(#[trigger] items[k]) == Ok::<
                _,
                ErrorView,
            >(list[done.len() + k]) by {
                if k > 0 {
                    assert(rest[k - 1] == items[k]);
                }
            }
        }
    }
}

/// The segments of an element section and the expressions of one are written in order, each as it
/// is rewritten.
pub proof fn law_segments_are_written_in_order(
    section: Seq<u8>,
    at: u64,
    kinds: Seq<ElementKind>,
    items: Seq<ElementItems>,
    types: Seq<Seq<u8>>,
    spans: Seq<Span>,
    imported: u32,
    k: int,
)
    ensures
        segments_rewritten(section, at, kinds, items, types, imported) matches Ok(list) ==> {
            &&& list.len() == kinds.len()
            &&& 0 <= k < kinds.len() ==> segment_rewritten(
                section,
                at,
                kinds[k],
                items[k],
                types[k],
                imported,
            ) == Ok::<_, ErrorView>(list[k])
        },
        expressions_rewritten(section, at, spans, imported) matches Ok(list) ==> {
            &&& list.len() == spans.len()
            &&& 0 <= k < spans.len() ==> expression_rewritten(section, at, spans[k], imported)
                == Ok::<_, ErrorView>(list[k])
        },
{
    let none = Seq::<Seq<u8>>::empty();
    let all = Seq::new(kinds.len(), |i: int| i);
    let segment = |i: int| segment_rewritten(section, at, kinds[i], items[i], types[i], imported);
    let expression = |s: Span| expression_rewritten(section, at, s, imported);
    lemma_each_written(none, all, segment);
    lemma_each_written(none, spans, expression);
    let put_segment = |done: Seq<Seq<u8>>, i: int|
        match segment(i) {
            Ok(b) => Ok::<_, ErrorView>(done.push(b)),
            Err(e) => Err(e),
        };
    let put_expression = |done: Seq<Seq<u8>>, s: Span|
        match expression(s) {
            Ok(b) => Ok::<_, ErrorView>(done.push(b)),
            Err(e) => Err(e),
        };
    assert(segments_rewritten(section, at, kinds, items, types, imported) == each(
        none,
        all,
        put_segment,
    )) by {
        assert(put_segment =~= (|done: Seq<Seq<u8>>, i: int|
            match segment_rewritten(section, at, kinds[i], items[i], types[i], imported) {
                Ok(b) => Ok(done.push(b)),
                Err(e) => Err(e),
            }));
    }
    assert(expressions_rewritten(section, at, spans, imported) == each(
        none,
        spans,
        put_expression,
    )) by {
        assert(put_expression =~= (|done: Seq<Seq<u8>>, span: Span|
            match expression_rewritten(section, at, span, imported) {
                Ok(b) => Ok(done.push(b)),
                Err(e) => Err(e),
            }));
    }
    if 0 <= k < kinds.len() {
        assert(all[k] == k);
    }
}

/// An expression is written instruction by instruction, with what names a function renumbered.
pub proof fn law_an_expression_is_written_by_instruction(
    section: Seq<u8>,
    at: u64,
    span: Span,
    imported: u32,
)
    ensures
        ({
            let bytes = section.subrange(span.start as int, span.end as int);
            let (ops, whole) = wasm::operators_in(bytes);
            match encode::operators_written(bytes) {
                Some(written) => whole ==> expression_rewritten(section, at, span, imported) == Ok::<
                    _,
                    ErrorView,
                >(
                    concat_all(
                        Seq::new(ops.len(), |i: int| i),
                        |i: int| original_bytes(ops[i], written[i], imported),
                    ),
                ),
                None => expression_rewritten(section, at, span, imported) is Err,
            }
        }),
{
    let bytes = section.subrange(span.start as int, span.end as int);
    let (ops, whole) = wasm::operators_in(bytes);
    if let Some(written) = encode::operators_written(bytes) {
        if whole {
            lemma_by_instruction(ops, written, imported, ops.len());
            let n = ops.len() as int;
            assert(only_originals(ops.len()).take(n) =~= only_originals(ops.len()));
            assert(Seq::new(ops.len(), |i: int| i).take(n) =~= Seq::new(ops.len(), |i: int| i));
        }
    }
}

proof fn lemma_by_instruction(ops: Seq<Operator>, written: Seq<Seq<u8>>, imported: u32, n: nat)
    requires
        n <= ops.len(),
    ensures
        code_bytes(only_originals(ops.len()).take(n as int), ops, written, imported) == concat_all(
            Seq::new(ops.len(), |i: int| i).take(n as int),
            |i: int| original_bytes(ops[i], written[i], imported),
        ),
    decreases n,
{
    let one = |e: Emitted| emitted_bytes(e, ops, written, imported);
    let other = |i: int| original_bytes(ops[i], written[i], imported);
    let (all, places) = (only_originals(ops.len()), Seq::new(ops.len(), |i: int| i));
    if n == 0 {
        assert(all.take(0) =~= Seq::empty());
        assert(places.take(0) =~= Seq::empty());
    } else {
        let m = (n - 1) as nat;
        lemma_by_instruction(ops, written, imported, m);
        lemma_concat_all_push(all, m as int, one);
        lemma_concat_all_push(places, m as int, other);
    }
}

/// An element segment is written with what it lists and, if it is active, with where it goes, both
/// with their functions renumbered.
pub proof fn law_a_segment_is_written_with_its_place(
    section: Seq<u8>,
    at: u64,
    kind: ElementKind,
    items: ElementItems,
    ty: Seq<u8>,
    imported: u32,
)
    ensures
        segment_rewritten(section, at, kind, items, ty, imported) matches Ok(b) ==> {
            let listed = items_rewritten(section, at, items, imported);
            &&& listed is Ok
            &&& kind matches ElementKind::Active { offset, .. } ==> {
                let place = expression_rewritten(section, at, offset, imported);
                &&& place is Ok
                &&& b == segment_bytes(kind, place->Ok_0, items is Expressions, ty, listed->Ok_0)
            }
            &&& !(kind is Active) ==> b == segment_bytes(
                kind,
                Seq::empty(),
                items is Expressions,
                ty,
                listed->Ok_0,
            )
        },
{
}

/// A body is written with the locals that are added and the code that takes its place.
pub proof fn law_a_body_is_written_with_its_locals(
    f: Facts,
    config: Config,
    index: nat,
    body: Seq<u8>,
    at: u64,
)
    ensures
        body_rewritten(f, config, index, body, at) matches Ok(b) ==> {
            let r = code_rewritten(f, config, index, body_of(body, at), body_operators(body, at));
            &&& r matches Ok((more, code)) && encode::body_written(body, more, code) == Some(b)
        },
{
}

/// Tables, globals and data segments are written as they are, with the functions renumbered that
/// their expressions name: the initializers of tables and globals, and where segments go.
pub proof fn law_initializers_are_renumbered(
    w: Rewriting,
    f: Facts,
    config: Config,
    bytes: Seq<u8>,
    at: u64,
)
    requires
        f.imported <= u32::MAX,
    ensures
        ({
            let imported = f.imported as u32;
            let (globals, data) = (wasm::globals_in(bytes).0, wasm::data_in(bytes).0);
            let tables = section_renumbered(bytes, at, wasm::table_inits_in(bytes), imported);
            let inits = section_renumbered(
                bytes,
                at,
                globals.map_values(|g: GlobalTypeView| Some(g.init)),
                imported,
            );
            let places = section_renumbered(
                bytes,
                at,
                data.map_values(|d: DataView| d.offset),
                imported,
            );
            &&& part_rewritten(w, f, config, PartKind::Tables, bytes, at) matches Ok(v) ==> (tables
                matches Ok(b) && encode::tables_written(b) == Some(v.sections.last().1))
            &&& part_rewritten(w, f, config, PartKind::Globals, bytes, at) matches Ok(v) ==> (inits
                matches Ok(b) && encode::globals_written(b) == Some(v.sections.last().1))
            &&& part_rewritten(w, f, config, PartKind::Data, bytes, at) matches Ok(v) ==> (places
                matches Ok(b) && encode::data_written(b) == Some(v.sections.last().1))
        }),
{
}

/// Exports and elements are written with the functions renumbered that they name, and memories as
/// they are.
pub proof fn law_exports_are_renumbered(
    w: Rewriting,
    f: Facts,
    config: Config,
    bytes: Seq<u8>,
    at: u64,
)
    requires
        f.imported <= u32::MAX,
    ensures
        ({
            let imported = f.imported as u32;
            let exports = wasm::exports_in(bytes).0;
            &&& part_rewritten(w, f, config, PartKind::Exports, bytes, at) matches Ok(v)
                ==> encode::exports_written(
                bytes,
                exports.map_values(|e: ExportView| export_index(e, imported)),
            ) == Some(v.sections.last().1)
            &&& part_rewritten(w, f, config, PartKind::Memories, bytes, at) matches Ok(v)
                ==> encode::memories_written(bytes) == Some(v.sections.last().1)
            &&& part_rewritten(w, f, config, PartKind::Elements, bytes, at) matches Ok(v) ==> (
            encode::element_types_in(bytes) matches Some(types) && (segments_rewritten(
                bytes,
                at,
                wasm::element_kinds_in(bytes).0,
                wasm::element_items_in(bytes),
                types,
                imported,
            ) matches Ok(list) && v.sections.last().1 == runs(list)))
        }),
{
}

} // verus!
