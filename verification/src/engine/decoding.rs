//! What a module decodes to.
//!
//! Each part of a module adds to what was decoded before it, and to one thing only. What it adds
//! is told entry by entry.
use crate::engine::image::{
    DataView, Draft, ElementView, Function, GlobalSpec, HostFunction, Image, ImageErrorView,
    MemorySpec, constant_of, data_entry, declared_locals, decoded, element_entry, expanded_locals,
    holds, holds_function, offset_of, resolved, with_data, with_elements, with_exports,
    with_globals, with_imports, with_memories, with_part, with_parts,
};
use crate::engine::integers::{lemma_unsigned_32, unsigned_32};
use crate::engine::numeric::{applied, shape};
use crate::engine::operator::{Operator, same_operator};
use crate::engine::semantics::MachineView;
use crate::module::{
    BodyView, ElementView as Segment, GlobalView, ImportView, ModeView, ModuleView, PartView,
    SegmentView,
};
use crate::state::Value;
use crate::validate::ENTRY_POINT;
use crate::wasm::{
    ExportView, FuncTypeView, ImportTypeView, ListingView, MemoryType, TableType, ValTypeView,
};
use vstd::prelude::*;

verus! {

/// Is this the type a rendering names?
pub open spec fn is_named(text: Seq<char>, ty: ValTypeView) -> bool {
    match ty {
        ValTypeView::I32 => text == "I32"@,
        ValTypeView::I64 => text == "I64"@,
        ValTypeView::F32 => text == "F32"@,
        ValTypeView::F64 => text == "F64"@,
        ValTypeView::V128 => text == "V128"@,
        ValTypeView::Ref(name) => name == text,
    }
}

/// Are these the types that renderings name, in order?
pub open spec fn are_named(texts: Seq<Seq<char>>, types: Seq<ValTypeView>) -> bool {
    &&& types.len() == texts.len()
    &&& forall|i: int| 0 <= i < types.len() ==> is_named(texts[i], #[trigger] types[i])
}

/// Does an expression evaluate to a constant: one constant instruction, and its end?
pub open spec fn evaluates_to(init: ListingView, v: Value) -> bool {
    &&& init.ops.len() >= 2
    &&& init.ops[1] is End
    &&& match init.ops[0] {
        Operator::I32Const { value } => v == Value::I32(value),
        Operator::I64Const { value } => v == Value::I64(value),
        Operator::F32Const { value } => v == Value::F32(value),
        Operator::F64Const { value } => v == Value::F64(value),
        _ => false,
    }
}

/// Does an expression evaluate to a 32-bit integer, read as unsigned?
pub open spec fn places_at(init: ListingView, offset: u32) -> bool {
    &&& init.ops.len() >= 2
    &&& init.ops[1] is End
    &&& init.ops[0] matches Operator::I32Const { value } && unsigned_32(value) == offset
}

proof fn lemma_constant(init: ListingView)
    ensures
        constant_of(init) matches Ok(v) ==> evaluates_to(init, v),
        constant_of(init) is Ok == is_constant(init),
        offset_of(init) matches Ok(n) ==> places_at(init, n),
        offset_of(init) is Ok == is_place(init),
{
    if init.ops.len() > 0 {
        if let Operator::I32Const { value } = init.ops[0] {
            lemma_unsigned_32(value);
        }
    }
}

/// The host function that an import names.
pub open spec fn names_host(i: ImportView, host: HostFunction) -> bool {
    &&& i.module == "cairn"@
    &&& i.ty is Func
    &&& match host {
        HostFunction::Input => i.name == "input"@,
        HostFunction::Output => i.name == "output"@,
        HostFunction::Charge => i.name == "charge"@,
    }
}

/// Does an import name a host function?
pub open spec fn is_host(i: ImportView) -> bool {
    &&& i.module == "cairn"@
    &&& i.ty is Func
    &&& i.name == "input"@ || i.name == "output"@ || i.name == "charge"@
}

/// Is an expression one constant instruction, and its end?
pub open spec fn is_constant(init: ListingView) -> bool {
    &&& init.ops.len() >= 2
    &&& init.ops[1] is End
    &&& init.ops[0] is I32Const || init.ops[0] is I64Const || init.ops[0] is F32Const
        || init.ops[0] is F64Const
}

/// Is an expression one 32-bit constant, and its end?
pub open spec fn is_place(init: ListingView) -> bool {
    &&& init.ops.len() >= 2
    &&& init.ops[1] is End
    &&& init.ops[0] is I32Const
}

/// Do the entries behind some number of them come from a list, one for one?
pub open spec fn adds<T, U>(
    before: Seq<T>,
    after: Seq<T>,
    list: Seq<U>,
    from: spec_fn(U, T) -> bool,
) -> bool {
    &&& after.len() == before.len() + list.len()
    &&& after.take(before.len() as int) == before
    &&& forall|i: int| 0 <= i < list.len() ==> from(#[trigger] list[i], after[before.len() + i])
}

proof fn lemma_names()
    ensures
        "input"@ != "output"@,
        "input"@ != "charge"@,
        "output"@ != "charge"@,
{
    reveal_strlit("input");
    reveal_strlit("output");
    reveal_strlit("charge");
    assert("input"@[0] == 'i' && "output"@[0] == 'o' && "charge"@[0] == 'c');
}

proof fn lemma_imports(d: Draft, list: Seq<ImportView>, n: nat)
    requires
        n <= list.len(),
        d.host_imports.len() + list.len() <= u32::MAX,
    ensures
        (with_imports(d, list, n) is Ok) == (forall|i: int|
            0 <= i < n ==> is_host(#[trigger] list[i])),
        with_imports(d, list, n) matches Ok(e) ==> {
            &&& adds(
                d.host_imports,
                e.host_imports,
                list.take(n as int),
                |i: ImportView, h: HostFunction| names_host(i, h),
            )
            &&& adds(
                d.func_types,
                e.func_types,
                list.take(n as int),
                |i: ImportView, t: u32| i.ty == ImportTypeView::Func(t),
            )
            &&& e == (Draft {
                host_imports: e.host_imports,
                func_types: e.func_types,
                charge: e.charge,
                ..d
            })
        },
    decreases n,
{
    lemma_names();
    if n > 0 {
        let m = (n - 1) as nat;
        lemma_imports(d, list, m);
        assert(list.take(n as int).drop_last() =~= list.take(m as int));
        let last = list[m as int];
        if with_imports(d, list, m) is Ok {
            let before = with_imports(d, list, m)->Ok_0;
            if with_imports(d, list, n) is Ok {
                let e = with_imports(d, list, n)->Ok_0;
                assert(e.host_imports.take(d.host_imports.len() as int) =~= before.host_imports.take(
                    d.host_imports.len() as int,
                ));
                assert(e.func_types.take(d.func_types.len() as int) =~= before.func_types.take(
                    d.func_types.len() as int,
                ));
                let p = list.take(m as int);
                assert forall|i: int| 0 <= i < n implies names_host(
                    #[trigger] list.take(n as int)[i],
                    e.host_imports[d.host_imports.len() + i],
                ) by {
                    if i < m {
                        assert(names_host(p[i], before.host_imports[d.host_imports.len() + i]));
                    }
                }
                assert forall|i: int| 0 <= i < n implies (#[trigger] list.take(n as int)[i]).ty
                    == ImportTypeView::Func(e.func_types[d.func_types.len() + i]) by {
                    if i < m {
                        assert(p[i].ty == ImportTypeView::Func(
                            before.func_types[d.func_types.len() + i],
                        ));
                    }
                }
            }
        }
    } else {
        assert(d.host_imports.take(d.host_imports.len() as int) =~= d.host_imports);
        assert(d.func_types.take(d.func_types.len() as int) =~= d.func_types);
    }
}

proof fn lemma_charge(d: Draft, list: Seq<ImportView>, n: nat)
    requires
        n <= list.len(),
        d.host_imports.len() + list.len() <= u32::MAX,
        with_imports(d, list, n) is Ok,
    ensures
        ({
            let e = with_imports(d, list, n)->Ok_0;
            &&& e.host_imports.len() == d.host_imports.len() + n
            &&& (forall|i: int| 0 <= i < n ==> (#[trigger] list[i]).name != "charge"@) ==> e.charge
                == d.charge
            &&& forall|i: int|
                0 <= i < n && (#[trigger] list[i]).name == "charge"@ && (forall|j: int|
                    i < j < n ==> (#[trigger] list[j]).name != "charge"@) ==> e.charge == Some(
                    (d.host_imports.len() + i) as u32,
                )
        }),
    decreases n,
{
    lemma_names();
    if n > 0 {
        let m = (n - 1) as nat;
        lemma_charge(d, list, m);
        let last = list[m as int];
        assert(last.name == "charge"@ <==> with_imports(d, list, n)->Ok_0.host_imports.last()
            is Charge);
    }
}

/// The imports of a module are host functions, in order, each with its type. The one called
/// `charge` is the meter. Nothing else may be imported.
pub proof fn law_imports_are_host_functions(d: Draft, list: Seq<ImportView>)
    requires
        d.host_imports.len() + list.len() <= u32::MAX,
    ensures
        ({
            let r = with_part(d, PartView::Imports(list, None));
            &&& (r is Ok) == (forall|i: int|
                0 <= i < list.len() ==> is_host(#[trigger] list[i]))
            &&& r matches Ok(e) ==> {
                &&& adds(
                    d.host_imports,
                    e.host_imports,
                    list,
                    |i: ImportView, h: HostFunction| names_host(i, h),
                )
                &&& adds(
                    d.func_types,
                    e.func_types,
                    list,
                    |i: ImportView, t: u32| i.ty == ImportTypeView::Func(t),
                )
                &&& e == (Draft {
                    host_imports: e.host_imports,
                    func_types: e.func_types,
                    charge: e.charge,
                    ..d
                })
                &&& (forall|i: int| 0 <= i < list.len() ==> (#[trigger] list[i]).name != "charge"@)
                    ==> e.charge == d.charge
                &&& forall|i: int|
                    0 <= i < list.len() && (#[trigger] list[i]).name == "charge"@ && (forall|j: int|
                        i < j < list.len() ==> (#[trigger] list[j]).name != "charge"@) ==> e.charge
                        == Some((d.host_imports.len() + i) as u32)
            }
        }),
{
    lemma_imports(d, list, list.len());
    if with_imports(d, list, list.len()) is Ok {
        lemma_charge(d, list, list.len());
    }
    assert(list.take(list.len() as int) =~= list);
}

/// The types of a module are those its type entries name, in order. An entry that is no function
/// type takes nothing and leaves nothing.
pub proof fn law_types_are_those_named(
    d: Draft,
    list: Seq<Option<(Seq<Seq<char>>, Seq<Seq<char>>)>>,
)
    ensures
        with_part(d, PartView::Types(list, None)) matches Ok(e) && e == (Draft {
            types: e.types,
            ..d
        }) && adds(
            d.types,
            e.types,
            list,
            |t: Option<(Seq<Seq<char>>, Seq<Seq<char>>)>, f: FuncTypeView|
                match t {
                    Some((params, results)) => are_named(params, f.params) && are_named(
                        results,
                        f.results,
                    ),
                    None => f.params.len() == 0 && f.results.len() == 0,
                },
        ),
{
    let e = with_part(d, PartView::Types(list, None))->Ok_0;
    assert(e.types.take(d.types.len() as int) =~= d.types);
}

/// The functions of a module have the types listed for them, in order, behind the imported ones.
pub proof fn law_functions_have_the_types_listed(d: Draft, list: Seq<u32>)
    ensures
        with_part(d, PartView::Functions(list, None)) matches Ok(e) && e == (Draft {
            func_types: e.func_types,
            defined_types: e.defined_types,
            ..d
        }) && adds(d.func_types, e.func_types, list, |t: u32, u: u32| t == u) && adds(
            d.defined_types,
            e.defined_types,
            list,
            |t: u32, u: u32| t == u,
        ),
{
    let e = with_part(d, PartView::Functions(list, None))->Ok_0;
    assert(e.func_types.take(d.func_types.len() as int) =~= d.func_types);
    assert(e.defined_types.take(d.defined_types.len() as int) =~= d.defined_types);
}

proof fn lemma_globals(
    d: Seq<GlobalSpec>,
    list: Seq<GlobalView>,
    n: nat,
)
    requires
        n <= list.len(),
    ensures
        (with_globals(d, list, n) is Ok) == (forall|i: int|
            0 <= i < n ==> is_constant((#[trigger] list[i]).init)),
        with_globals(d, list, n) matches Ok(e) ==> e.len() == d.len() + n && e.take(d.len() as int)
            == d && forall|i: int|
            0 <= i < n ==> (#[trigger] list[i]).mutable == e[d.len() + i].mutable && evaluates_to(
                list[i].init,
                e[d.len() + i].init,
            ),
    decreases n,
{
    if n > 0 {
        let m = (n - 1) as nat;
        lemma_globals(d, list, m);
        lemma_constant(list[m as int].init);
        if with_globals(d, list, n) is Ok {
            let e = with_globals(d, list, n)->Ok_0;
            let before = with_globals(d, list, m)->Ok_0;
            assert(e.take(d.len() as int) =~= before.take(d.len() as int));
            assert(evaluates_to(list[m as int].init, e.last().init));
        }
    } else {
        assert(d.take(d.len() as int) =~= d);
    }
}

/// The globals of a module start at the constants they are declared with, in order, and may be
/// written if they are declared so. Nothing but a constant may initialize one.
pub proof fn law_globals_start_at_their_constants(d: Draft, list: Seq<GlobalView>)
    ensures
        ({
            let r = with_part(d, PartView::Globals(list, None));
            &&& (r is Ok) == (forall|i: int|
                0 <= i < list.len() ==> is_constant((#[trigger] list[i]).init))
            &&& r matches Ok(e) ==> e == (Draft { globals: e.globals, ..d }) && adds(
                d.globals,
                e.globals,
                list,
                |g: GlobalView, s: GlobalSpec|
                    s.mutable == g.mutable && evaluates_to(g.init, s.init),
            )
        }),
{
    lemma_globals(d.globals, list, list.len());
}

proof fn lemma_memories(
    d: Option<MemorySpec>,
    list: Seq<MemoryType>,
    n: nat,
)
    requires
        n <= list.len(),
    ensures
        (with_memories(d, list, n) is Ok) == (forall|i: int|
            0 <= i < n ==> (#[trigger] list[i]).maximum is Some),
        n == 0 ==> with_memories(d, list, n) == Ok::<_, ImageErrorView>(d),
        n > 0 && with_memories(d, list, n) is Ok ==> ({
            let e = with_memories(d, list, n)->Ok_0;
            let last = list[n - 1];
            &&& e matches Some(m) && (last.initial <= u32::MAX ==> m.initial_pages == last.initial)
                && (last.maximum->0 <= u32::MAX ==> m.maximum_pages == last.maximum->0)
        }),
    decreases n,
{
    if n > 0 {
        lemma_memories(d, list, (n - 1) as nat);
    }
}

/// The memory of a module has the pages and the ceiling it is declared with. One without a ceiling
/// is refused.
pub proof fn law_the_memory_is_the_one_declared(d: Draft, list: Seq<MemoryType>)
    ensures
        ({
            let r = with_part(d, PartView::Memories(list, None));
            &&& (r is Ok) == (forall|i: int|
                0 <= i < list.len() ==> (#[trigger] list[i]).maximum is Some)
            &&& r matches Ok(e) ==> e == (Draft { memory: e.memory, ..d }) && (list.len() == 0
                ==> e.memory == d.memory) && (list.len() > 0 ==> ({
                let last = list[list.len() - 1];
                &&& e.memory matches Some(m) && (last.initial <= u32::MAX ==> m.initial_pages
                    == last.initial) && (last.maximum->0 <= u32::MAX ==> m.maximum_pages
                    == last.maximum->0)
            }))
        }),
{
    lemma_memories(d.memory, list, list.len());
}

/// The table of a module has the slots and the ceiling it is declared with.
pub proof fn law_the_table_is_the_one_declared(d: Draft, list: Seq<TableType>)
    ensures
        with_part(d, PartView::Tables(list, None)) matches Ok(e) && e == (Draft {
            table: e.table,
            ..d
        }) && (list.len() == 0 ==> e.table == d.table) && (list.len() > 0
            && list[list.len() - 1].initial <= u32::MAX ==> (e.table matches Some(t) && t.initial
            == list[list.len() - 1].initial && match list[list.len() - 1].maximum {
            Some(maximum) => t.maximum is Some && (maximum <= u32::MAX ==> t.maximum->0 == maximum),
            None => t.maximum is None,
        })),
{
}

proof fn lemma_exports(d: Option<u32>, list: Seq<ExportView>, n: nat)
    requires
        n <= list.len(),
    ensures
        (forall|i: int| 0 <= i < n ==> !is_entry(#[trigger] list[i])) ==> with_exports(d, list, n)
            == d,
        forall|i: int|
            0 <= i < n && is_entry(#[trigger] list[i]) && (forall|j: int|
                i < j < n ==> !is_entry(#[trigger] list[j])) ==> with_exports(d, list, n) == Some(
                list[i].index,
            ),
    decreases n,
{
    if n > 0 {
        lemma_exports(d, list, (n - 1) as nat);
        assert(is_entry(list[n - 1]) == (list[n - 1].name == ENTRY_POINT@
            && list[n - 1].kind is Func));
    }
}

/// Is this an export of the entry point?
pub open spec fn is_entry(e: ExportView) -> bool {
    e.name == "cairn_run"@ && e.kind is Func
}

/// The entry point of a module is the function it exports as `cairn_run`.
pub proof fn law_the_entry_point_is_the_one_exported(d: Draft, list: Seq<ExportView>, i: int)
    ensures
        with_part(d, PartView::Exports(list, None)) matches Ok(e) && e == (Draft {
            entry: e.entry,
            ..d
        }) && ((forall|j: int| 0 <= j < list.len() ==> !is_entry(#[trigger] list[j])) ==> e.entry
            == d.entry) && (0 <= i < list.len() && is_entry(list[i]) && (forall|j: int|
            i < j < list.len() ==> !is_entry(#[trigger] list[j])) ==> e.entry == Some(
            list[i].index,
        )),
{
    lemma_exports(d.entry, list, list.len());
}

/// Is this what an element segment decodes to?
pub open spec fn is_segment(s: Segment, e: ElementView) -> bool {
    let functions = match s.functions {
        Some((found, _)) => found,
        None => Seq::empty(),
    };
    match s.mode {
        ModeView::Active(init) => e matches ElementView::Active { offset, functions: f }
            && places_at(init, offset) && f == functions,
        ModeView::Passive => e matches ElementView::Passive { functions: f } && f == functions,
        ModeView::Declared => e is Declared,
    }
}

/// Can an element segment be decoded?
pub open spec fn is_sound_segment(s: Segment) -> bool {
    &&& s.functions matches Some((_, error)) ==> error is None
    &&& s.mode matches ModeView::Active(init) ==> is_place(init)
}

proof fn lemma_element(s: Segment)
    ensures
        element_entry(s) matches Ok(e) ==> is_segment(s, e),
        element_entry(s) is Ok == is_sound_segment(s),
{
    if let ModeView::Active(init) = s.mode {
        lemma_constant(init);
        if offset_of(init) is Ok {
            assert(places_at(init, offset_of(init)->Ok_0));
        }
    }
}

proof fn lemma_elements(d: Seq<ElementView>, list: Seq<Segment>, n: nat)
    requires
        n <= list.len(),
    ensures
        (with_elements(d, list, n) is Ok) == (forall|i: int|
            0 <= i < n ==> is_sound_segment(#[trigger] list[i])),
        with_elements(d, list, n) matches Ok(e) ==> e.len() == d.len() + n && e.take(
            d.len() as int,
        ) == d && forall|i: int| 0 <= i < n ==> is_segment(#[trigger] list[i], e[d.len() + i]),
    decreases n,
{
    if n > 0 {
        let m = (n - 1) as nat;
        lemma_elements(d, list, m);
        lemma_element(list[m as int]);
        if with_elements(d, list, n) is Ok {
            let e = with_elements(d, list, n)->Ok_0;
            let before = with_elements(d, list, m)->Ok_0;
            assert(e.take(d.len() as int) =~= before.take(d.len() as int));
        }
    } else {
        assert(d.take(d.len() as int) =~= d);
    }
}

/// The element segments of a module, in order: where an active one is placed, and the functions it
/// lists.
pub proof fn law_element_segments_are_decoded(d: Draft, list: Seq<Segment>)
    ensures
        ({
            let r = with_part(d, PartView::Elements(list, None));
            &&& (r is Ok) == (forall|i: int|
                0 <= i < list.len() ==> is_sound_segment(#[trigger] list[i]))
            &&& r matches Ok(e) ==> e == (Draft { elements: e.elements, ..d }) && adds(
                d.elements,
                e.elements,
                list,
                |s: Segment, e: ElementView| is_segment(s, e),
            )
        }),
{
    lemma_elements(d.elements, list, list.len());
}

/// Is this what a data segment decodes to?
pub open spec fn is_data(s: SegmentView, e: DataView) -> bool {
    match s.offset {
        Some(init) => e matches DataView::Active { offset, bytes } && places_at(init, offset)
            && bytes == s.bytes,
        None => e matches DataView::Passive { bytes } && bytes == s.bytes,
    }
}

/// Can a data segment be decoded?
pub open spec fn is_sound_data(s: SegmentView) -> bool {
    s.offset matches Some(init) ==> is_place(init)
}

proof fn lemma_data(d: Seq<DataView>, list: Seq<SegmentView>, n: nat)
    requires
        n <= list.len(),
    ensures
        (with_data(d, list, n) is Ok) == (forall|i: int|
            0 <= i < n ==> is_sound_data(#[trigger] list[i])),
        with_data(d, list, n) matches Ok(e) ==> e.len() == d.len() + n && e.take(d.len() as int)
            == d && forall|i: int| 0 <= i < n ==> is_data(#[trigger] list[i], e[d.len() + i]),
    decreases n,
{
    if n > 0 {
        let m = (n - 1) as nat;
        lemma_data(d, list, m);
        let s = list[m as int];
        if let Some(init) = s.offset {
            lemma_constant(init);
            if offset_of(init) is Ok {
                assert(places_at(init, offset_of(init)->Ok_0));
            }
        }
        assert(data_entry(s) is Ok == is_sound_data(s));
        if with_data(d, list, n) is Ok {
            let e = with_data(d, list, n)->Ok_0;
            let before = with_data(d, list, m)->Ok_0;
            assert(e.take(d.len() as int) =~= before.take(d.len() as int));
        }
    } else {
        assert(d.take(d.len() as int) =~= d);
    }
}

/// The data segments of a module, in order: where an active one is placed, and its bytes.
pub proof fn law_data_segments_are_decoded(d: Draft, list: Seq<SegmentView>)
    ensures
        ({
            let r = with_part(d, PartView::Data(list, None));
            &&& (r is Ok) == (forall|i: int|
                0 <= i < list.len() ==> is_sound_data(#[trigger] list[i]))
            &&& r matches Ok(e) ==> e == (Draft { data: e.data, ..d }) && adds(
                d.data,
                e.data,
                list,
                |s: SegmentView, e: DataView| is_data(s, e),
            )
        }),
{
    lemma_data(d.data, list, list.len());
}

/// How many locals come before a run of them.
pub open spec fn before_run(runs: Seq<(u32, Seq<char>)>, k: int) -> int
    decreases k,
{
    if k <= 0 {
        0
    } else {
        before_run(runs, k - 1) + runs[k - 1].0
    }
}

proof fn lemma_runs(runs: Seq<(u32, Seq<char>)>, function: nat, n: nat)
    requires
        n <= runs.len(),
    ensures
        declared_locals(runs, n) == before_run(runs, n as int),
        (expanded_locals(runs, function, n) is Ok) == (n == 0 || before_run(runs, n as int)
            <= 50_000),
        expanded_locals(runs, function, n) matches Ok(l) ==> l.len() == before_run(runs, n as int)
            && forall|k: int, i: int|
            #![trigger runs[k], l[i]]
            0 <= k < n && before_run(runs, k) <= i < before_run(runs, k + 1) ==> is_named(
                runs[k].1,
                l[i],
            ),
        forall|k: int| 0 <= k < n ==> #[trigger] before_run(runs, k + 1) <= before_run(runs, n as int),
    decreases n,
{
    if n > 0 {
        let m = (n - 1) as nat;
        lemma_runs(runs, function, m);
        assert(before_run(runs, n as int) == before_run(runs, m as int) + runs[m as int].0);
        assert forall|k: int| 0 <= k < n implies #[trigger] before_run(runs, k + 1) <= before_run(
            runs,
            n as int,
        ) by {}
        if expanded_locals(runs, function, n) is Ok {
            let l = expanded_locals(runs, function, n)->Ok_0;
            let before = expanded_locals(runs, function, m)->Ok_0;
            assert forall|k: int, i: int|
                #![trigger runs[k], l[i]]
                0 <= k < n && before_run(runs, k) <= i < before_run(runs, k + 1) implies is_named(
                runs[k].1,
                l[i],
            ) by {
                lemma_before_run(runs, k);
                if k < m {
                    assert(before_run(runs, k + 1) <= before_run(runs, m as int));
                    assert(l[i] == before[i]);
                    assert(is_named(runs[k].1, before[i]));
                }
            }
        }
    }
}

proof fn lemma_before_run(runs: Seq<(u32, Seq<char>)>, k: int)
    ensures
        before_run(runs, k) >= 0,
    decreases k,
{
    if k > 0 {
        lemma_before_run(runs, k - 1);
    }
}

/// The functions of a module are its bodies, in order: each with the type listed for it, the
/// locals its runs declare, its instructions, and where its constructs end. A body is refused
/// exactly if there is no type for it, it declares too many locals, it was not read to its end, or
/// its constructs do not nest.
pub proof fn law_bodies_are_decoded(d: Draft, b: BodyView)
    ensures
        ({
            let r = with_part(d, PartView::Code(b));
            let (runs, error) = b.locals;
            &&& (r is Ok) == (d.functions.len() < d.defined_types.len() && before_run(
                runs,
                runs.len() as int,
            ) <= 50_000 && error is None && (b.code matches Ok(l) && l.complete && resolved(
                l.ops,
            ) is Some))
            &&& r matches Ok(e) ==> {
                let f = e.functions.last();
                &&& e == (Draft { functions: d.functions.push(f), ..d })
                &&& f.type_index == d.defined_types[d.functions.len() as int]
                &&& f.ops == b.code->Ok_0.ops
                &&& Some(f.control) == resolved(f.ops)
                &&& f.local_types.len() == before_run(runs, runs.len() as int)
                &&& forall|k: int, i: int|
                    #![trigger runs[k], f.local_types[i]]
                    0 <= k < runs.len() && before_run(runs, k) <= i < before_run(runs, k + 1)
                        ==> is_named(runs[k].1, f.local_types[i])
            }
        }),
{
    let (runs, error) = b.locals;
    lemma_runs(runs, d.functions.len(), runs.len());
}

/// What kept a part from being read to its end, if anything did.
pub open spec fn fault(p: PartView) -> Option<Seq<char>> {
    match p {
        PartView::Types(_, e) => e,
        PartView::Imports(_, e) => e,
        PartView::Functions(_, e) => e,
        PartView::Tables(_, e) => e,
        PartView::Memories(_, e) => e,
        PartView::Globals(_, e) => e,
        PartView::Exports(_, e) => e,
        PartView::Elements(_, e) => e,
        PartView::Data(_, e) => e,
        PartView::Code(b) => b.locals.1,
        _ => None,
    }
}

/// A part that could not be read to its end is refused.
pub proof fn law_a_part_is_read_to_its_end(d: Draft, p: PartView)
    ensures
        fault(p) is Some ==> with_part(d, p) is Err,
{
}

/// Parts are taken in one after the other, and what is refused once stays refused. A module that is
/// decoded ends well, and has a memory, an entry point and the meter.
pub proof fn law_what_is_decoded_is_whole(m: ModuleView, k: int)
    ensures
        (decoded(m) is Ok) == (with_parts(m.parts, m.parts.len()) is Ok && m.error is None && (
        with_parts(m.parts, m.parts.len()) matches Ok(d) && d.memory is Some && d.entry is Some
            && d.charge is Some)),
        decoded(m) matches Ok(d) ==> with_parts(m.parts, m.parts.len()) == Ok::<_, ImageErrorView>(
            d,
        ),
        0 <= k < m.parts.len() ==> with_parts(m.parts, (k + 1) as nat) == (match with_parts(
            m.parts,
            k as nat,
        ) {
            Ok(d) => with_part(d, m.parts[k]),
            Err(e) => Err(e),
        }),
        with_parts(m.parts, 0) matches Ok(d) && d.types.len() == 0 && d.func_types.len() == 0
            && d.host_imports.len() == 0 && d.functions.len() == 0 && d.globals.len() == 0
            && d.elements.len() == 0 && d.data.len() == 0 && d.defined_types.len() == 0 && d.memory
            is None && d.table is None && d.entry is None && d.charge is None,
{
}

/// Is an initializer to blame for an error: is it no constant, or was it not read that far?
pub open spec fn blames_initializer(init: ListingView, e: ImageErrorView) -> bool {
    match e {
        ImageErrorView::UnsupportedInitializer => !is_place(init) && init.ops.len() > 0,
        ImageErrorView::Parse(detail) => init.ops.len() < 2 && detail == init.error,
        _ => false,
    }
}

/// Is an import to blame for an error?
pub open spec fn blames_import(i: ImportView, e: ImageErrorView) -> bool {
    e == ImageErrorView::UnsupportedImport(i.module, i.name) && !is_host(i)
}

/// Is an element segment to blame for an error?
pub open spec fn blames_element(s: Segment, e: ImageErrorView) -> bool {
    ||| s.functions matches Some((_, Some(detail))) && e == ImageErrorView::Parse(detail)
    ||| s.mode matches ModeView::Active(init) && blames_initializer(init, e)
}

/// Is a data segment to blame for an error?
pub open spec fn blames_data(s: SegmentView, e: ImageErrorView) -> bool {
    s.offset matches Some(init) && blames_initializer(init, e)
}

/// Is a body to blame for an error, as the next function of what was decoded?
pub open spec fn blames_body(d: Draft, b: BodyView, e: ImageErrorView) -> bool {
    let index = d.functions.len();
    match e {
        ImageErrorView::BodyWithoutSignature(i) => i == index && index >= d.defined_types.len(),
        ImageErrorView::TooManyLocals(i, declared) => i == index && declared > 50_000 && exists|k: int|
            0 < k <= b.locals.0.len() && declared == #[trigger] before_run(b.locals.0, k),
        ImageErrorView::UnbalancedControl(i) => i == index && (b.code matches Ok(l) && resolved(
            l.ops,
        ) is None),
        ImageErrorView::Parse(detail) => b.locals.1 == Some(detail) || b.code == Err::<
            ListingView,
            _,
        >(detail) || (b.code matches Ok(l) && !l.complete && l.error == detail),
        _ => false,
    }
}

/// Is a part to blame for an error, behind what was decoded?
pub open spec fn blames(d: Draft, p: PartView, e: ImageErrorView) -> bool {
    ||| e matches ImageErrorView::Parse(detail) && fault(p) == Some(detail)
    ||| match p {
        PartView::Imports(list, _) => exists|i: int|
            0 <= i < list.len() && blames_import(#[trigger] list[i], e),
        PartView::Memories(list, _) => e is BadMemory && exists|i: int|
            0 <= i < list.len() && (#[trigger] list[i]).maximum is None,
        PartView::Globals(list, _) => exists|i: int|
            0 <= i < list.len() && (#[trigger] list[i]).init.ops.len() < 2 && e
                == ImageErrorView::Parse(list[i].init.error) || 0 <= i < list.len() && e
                is UnsupportedInitializer && !is_constant(list[i].init),
        PartView::Elements(list, _) => exists|i: int|
            0 <= i < list.len() && blames_element(#[trigger] list[i], e),
        PartView::Data(list, _) => exists|i: int|
            0 <= i < list.len() && blames_data(#[trigger] list[i], e),
        PartView::Code(b) => blames_body(d, b, e),
        _ => false,
    }
}

proof fn lemma_initializer_blame(init: ListingView)
    ensures
        offset_of(init) matches Err(e) ==> blames_initializer(init, e),
        constant_of(init) matches Err(e) ==> (init.ops.len() < 2 && e == ImageErrorView::Parse(
            init.error,
        )) || (e is UnsupportedInitializer && !is_constant(init)),
{
    lemma_constant(init);
}

proof fn lemma_imports_blame(d: Draft, list: Seq<ImportView>, n: nat)
    requires
        n <= list.len(),
    ensures
        with_imports(d, list, n) matches Err(e) ==> exists|i: int|
            0 <= i < n && blames_import(#[trigger] list[i], e),
    decreases n,
{
    if n > 0 {
        lemma_imports_blame(d, list, (n - 1) as nat);
        if with_imports(d, list, (n - 1) as nat) is Ok {
            if let Err(e) = with_imports(d, list, n) {
                assert(blames_import(list[n - 1], e));
            }
        }
    }
}

proof fn lemma_memories_blame(d: Option<MemorySpec>, list: Seq<MemoryType>, n: nat)
    requires
        n <= list.len(),
    ensures
        with_memories(d, list, n) matches Err(e) ==> e is BadMemory && exists|i: int|
            0 <= i < n && (#[trigger] list[i]).maximum is None,
    decreases n,
{
    if n > 0 {
        lemma_memories_blame(d, list, (n - 1) as nat);
        if with_memories(d, list, (n - 1) as nat) is Ok && with_memories(d, list, n) is Err {
            assert(list[n - 1].maximum is None);
        }
    }
}

proof fn lemma_globals_blame(d: Seq<GlobalSpec>, list: Seq<GlobalView>, n: nat)
    requires
        n <= list.len(),
    ensures
        with_globals(d, list, n) matches Err(e) ==> exists|i: int|
            0 <= i < n && (#[trigger] list[i]).init.ops.len() < 2 && e == ImageErrorView::Parse(
                list[i].init.error,
            ) || 0 <= i < n && e is UnsupportedInitializer && !is_constant(list[i].init),
    decreases n,
{
    if n > 0 {
        lemma_globals_blame(d, list, (n - 1) as nat);
        lemma_initializer_blame(list[n - 1].init);
        if let Err(e) = with_globals(d, list, (n - 1) as nat) {
            let i = choose|i: int|
                0 <= i < n - 1 && (#[trigger] list[i]).init.ops.len() < 2 && e
                    == ImageErrorView::Parse(list[i].init.error) || 0 <= i < n - 1 && e
                    is UnsupportedInitializer && !is_constant(list[i].init);
            assert(list[i].init.ops.len() < 2 || !is_constant(list[i].init));
        } else if let Err(e) = with_globals(d, list, n) {
            assert(list[n - 1].init.ops.len() < 2 || !is_constant(list[n - 1].init));
        }
    }
}

proof fn lemma_elements_blame(d: Seq<ElementView>, list: Seq<Segment>, n: nat)
    requires
        n <= list.len(),
    ensures
        with_elements(d, list, n) matches Err(e) ==> exists|i: int|
            0 <= i < n && blames_element(#[trigger] list[i], e),
    decreases n,
{
    if n > 0 {
        lemma_elements_blame(d, list, (n - 1) as nat);
        let s = list[n - 1];
        if let ModeView::Active(init) = s.mode {
            lemma_initializer_blame(init);
        }
        if with_elements(d, list, (n - 1) as nat) is Ok {
            if let Err(e) = with_elements(d, list, n) {
                assert(blames_element(list[n - 1], e));
            }
        }
    }
}

proof fn lemma_data_blame(d: Seq<DataView>, list: Seq<SegmentView>, n: nat)
    requires
        n <= list.len(),
    ensures
        with_data(d, list, n) matches Err(e) ==> exists|i: int|
            0 <= i < n && blames_data(#[trigger] list[i], e),
    decreases n,
{
    if n > 0 {
        lemma_data_blame(d, list, (n - 1) as nat);
        let s = list[n - 1];
        if let Some(init) = s.offset {
            lemma_initializer_blame(init);
        }
        if with_data(d, list, (n - 1) as nat) is Ok {
            if let Err(e) = with_data(d, list, n) {
                assert(blames_data(list[n - 1], e));
            }
        }
    }
}

proof fn lemma_locals_blame(runs: Seq<(u32, Seq<char>)>, function: nat, n: nat)
    requires
        n <= runs.len(),
    ensures
        expanded_locals(runs, function, n) matches Err(e) ==> exists|k: int|
            0 < k <= n && #[trigger] before_run(runs, k) > 50_000 && e
                == ImageErrorView::TooManyLocals(function, before_run(runs, k) as nat),
    decreases n,
{
    if n > 0 {
        lemma_locals_blame(runs, function, (n - 1) as nat);
        lemma_runs(runs, function, n);
        if expanded_locals(runs, function, (n - 1) as nat) is Ok && expanded_locals(
            runs,
            function,
            n,
        ) is Err {
            assert(before_run(runs, n as int) > 50_000);
        }
    }
}

/// An error that a part is refused with is true of it.
pub proof fn law_a_decoding_error_is_true(d: Draft, p: PartView)
    ensures
        with_part(d, p) matches Err(e) ==> blames(d, p, e),
{
    match p {
        PartView::Imports(list, _) => lemma_imports_blame(d, list, list.len()),
        PartView::Memories(list, _) => lemma_memories_blame(d.memory, list, list.len()),
        PartView::Globals(list, _) => lemma_globals_blame(d.globals, list, list.len()),
        PartView::Elements(list, _) => lemma_elements_blame(d.elements, list, list.len()),
        PartView::Data(list, _) => lemma_data_blame(d.data, list, list.len()),
        PartView::Code(b) => {
            let (runs, function) = (b.locals.0, d.functions.len());
            lemma_locals_blame(runs, function, runs.len());
            if let Err(e) = expanded_locals(runs, function, runs.len()) {
                let k = choose|k: int|
                    0 < k <= runs.len() && #[trigger] before_run(runs, k) > 50_000 && e
                        == ImageErrorView::TooManyLocals(function, before_run(runs, k) as nat);
                lemma_before_run(runs, k);
                if let Err(e) = with_part(d, p) {
                    assert(function < d.defined_types.len() ==> before_run(runs, k)
                        == e->TooManyLocals_1);
                }
            }
        },
        _ => {},
    }
}

/// A module whose parts are all taken in is refused exactly for how it ends, for want of a memory,
/// of an entry point or of the meter, in this order.
pub proof fn law_what_is_missing_is_told(m: ModuleView, d: Draft)
    requires
        with_parts(m.parts, m.parts.len()) == Ok::<Draft, ImageErrorView>(d),
    ensures
        decoded(m) == (if m.error is Some {
            Err(ImageErrorView::Parse(m.error->0))
        } else if d.memory is None {
            Err(ImageErrorView::BadMemory)
        } else if d.entry is None {
            Err(ImageErrorView::NoEntryPoint)
        } else if d.charge is None {
            Err(ImageErrorView::NotInstrumented)
        } else {
            Ok(d)
        }),
{
}

/// Instructions that are held to be the same do the same, in every state.
pub proof fn law_same_instructions_do_the_same(
    m: MachineView,
    a: Operator,
    b: Operator,
    f: Function,
    pc: u32,
)
    requires
        same_operator(a, b),
    ensures
        applied(a, m.stack) == applied(b, m.stack),
        m.executed(a, f, pc) == m.executed(b, f, pc),
{
    reveal(MachineView::executed);
    reveal(MachineView::branching);
    assert(shape(a) == shape(b));
}

/// An image is what was decoded, field by field: the types, the type of every function, the host
/// functions, the functions with their locals, instructions and constructs, the memory, the globals,
/// the table, the segments, the entry point and the meter.
pub proof fn law_an_image_is_what_was_decoded(image: Image, d: Draft, k: int, i: int)
    requires
        holds(image, d),
    ensures
        image.types@.len() == d.types.len(),
        0 <= k < d.types.len() ==> image.types@[k].deep_view() == d.types[k],
        image.func_types@ == d.func_types,
        image.host_imports@ == d.host_imports,
        image.functions@.len() == d.functions.len(),
        0 <= k < d.functions.len() ==> {
            let (f, v) = (image.functions@[k], d.functions[k]);
            &&& f.type_index == v.type_index
            &&& f.control@ == v.control
            &&& f.local_types@.len() == v.local_types.len()
            &&& 0 <= i < v.local_types.len() ==> f.local_types@[i].deep_view() == v.local_types[i]
            &&& f.ops@.len() == v.ops.len()
            &&& 0 <= i < v.ops.len() ==> same_operator(f.ops@[i], v.ops[i])
        },
        d.memory == Some(image.memory),
        image.globals@ == d.globals,
        image.table == d.table,
        image.elements@.len() == d.elements.len(),
        0 <= k < d.elements.len() ==> image.elements@[k].deep_view() == d.elements[k],
        image.data@.len() == d.data.len(),
        0 <= k < d.data.len() ==> image.data@[k].deep_view() == d.data[k],
        d.entry == Some(image.entry),
        d.charge == Some(image.charge),
{
    if 0 <= k < d.types.len() {
        assert(image.types.deep_view()[k] == image.types@[k].deep_view());
    }
    if 0 <= k < d.elements.len() {
        assert(image.elements.deep_view()[k] == image.elements@[k].deep_view());
    }
    if 0 <= k < d.data.len() {
        assert(image.data.deep_view()[k] == image.data@[k].deep_view());
    }
    if 0 <= k < d.functions.len() {
        let (f, v) = (image.functions@[k], d.functions[k]);
        assert(holds_function(f, v));
        if 0 <= i < v.local_types.len() {
            assert(f.local_types.deep_view()[i] == f.local_types@[i].deep_view());
        }
    }
}

} // verus!
