//! Which modules are admitted, said as a condition on what they hold.
//!
//! Validation goes through a module part by part and stops at the first thing it does not admit.
//! Here the same is a condition on the whole module that knows of no order and no state: a module
//! is accepted exactly if it holds, and what is reported of it is what it declares.
use crate::engine::operator::Operator;
use crate::fold::each;
use crate::module::{BodyView, GlobalView, ImportView, ModuleView, PartView, module_of};
use crate::validate::{
    Feature, Limits, ModuleFacts, RejectionView, Survey, admitted, body_seen, export_seen,
    first_reference, global_seen, import_seen, inspected, local_seen, memory_seen, objection_to,
    operator_seen, part_seen, submitted, table_seen, type_seen, unseen,
};
use crate::wasm::{
    ExportView, ExternalKind, FuncTypeView, ImportTypeView, MemoryType, TableType, ValTypeView,
    type_named, types_named,
};
use vstd::prelude::*;

verus! {

/// Does a rendering name a type of values, and no reference?
pub open spec fn is_value_type(name: Seq<char>) -> bool {
    name == "I32"@ || name == "I64"@ || name == "F32"@ || name == "F64"@ || name == "V128"@
}

/// Do renderings name types of values only?
pub open spec fn are_value_types(names: Seq<Seq<char>>) -> bool {
    forall|i: int| 0 <= i < names.len() ==> is_value_type(#[trigger] names[i])
}

/// The types that the first parts of a module declare, each as its parameters and results.
pub open spec fn declared_types(parts: Seq<PartView>) -> Seq<
    Option<(Seq<Seq<char>>, Seq<Seq<char>>)>,
>
    decreases parts.len(),
{
    if parts.len() == 0 {
        Seq::empty()
    } else {
        match parts.last() {
            PartView::Types(types, _) => declared_types(parts.drop_last()) + types,
            _ => declared_types(parts.drop_last()),
        }
    }
}

/// The memories that the first parts of a module declare.
pub open spec fn declared_memories(parts: Seq<PartView>) -> Seq<MemoryType>
    decreases parts.len(),
{
    if parts.len() == 0 {
        Seq::empty()
    } else {
        match parts.last() {
            PartView::Memories(memories, _) => declared_memories(parts.drop_last()) + memories,
            _ => declared_memories(parts.drop_last()),
        }
    }
}

/// Is an import one of the two host functions, with its type?
pub open spec fn is_host_function(
    types: Seq<Option<(Seq<Seq<char>>, Seq<Seq<char>>)>>,
    i: ImportView,
) -> bool {
    &&& i.module == "cairn"@
    &&& i.ty matches ImportTypeView::Func(index) && index < types.len() && ((i.name == "input"@
        && types[index as int] == Some((seq!["I32"@, "I32"@], seq!["I32"@]))) || (i.name
        == "output"@ && types[index as int] == Some(
        (seq!["I32"@, "I32"@], Seq::<Seq<char>>::empty()),
    )))
}

/// Does an instruction make, read or write a reference?
pub open spec fn handles_references(op: Operator) -> bool {
    match op {
        Operator::RefNull { .. }
        | Operator::RefIsNull { .. }
        | Operator::RefFunc { .. }
        | Operator::TableGet { .. }
        | Operator::TableSet { .. }
        | Operator::TableSize { .. }
        | Operator::TableGrow { .. }
        | Operator::TableFill { .. }
        | Operator::TableCopy { .. }
        | Operator::TableInit { .. } => true,
        Operator::TypedSelect { reference, .. } => reference,
        _ => false,
    }
}

/// Is a body one that is admitted: read to its end, with no local and no instruction that has to
/// do with references?
pub open spec fn is_admissible_body(b: BodyView) -> bool {
    &&& b.locals.1 is None
    &&& forall|i: int| 0 <= i < b.locals.0.len() ==> is_value_type((#[trigger] b.locals.0[i]).1)
    &&& b.code matches Ok(l) && l.complete && forall|i: int|
        0 <= i < l.ops.len() ==> !handles_references(#[trigger] l.ops[i])
}

/// Is a part one that is admitted, behind these types and so many memories?
pub open spec fn is_admissible(
    types: Seq<Option<(Seq<Seq<char>>, Seq<Seq<char>>)>>,
    memories: nat,
    p: PartView,
) -> bool {
    match p {
        PartView::Types(list, error) => error is None && forall|i: int|
            0 <= i < list.len() ==> ((#[trigger] list[i]) matches Some((params, results))
                ==> are_value_types(params) && are_value_types(results)),
        PartView::Imports(list, error) => error is None && forall|i: int|
            0 <= i < list.len() ==> is_host_function(types, #[trigger] list[i]),
        PartView::Memories(list, error) => error is None && memories + list.len() <= 1,
        PartView::Start(_) => false,
        PartView::Tables(list, error) => error is None && list.len() <= 1 && forall|i: int|
            0 <= i < list.len() ==> (#[trigger] list[i]).holds_functions,
        PartView::Globals(list, error) => error is None && forall|i: int|
            0 <= i < list.len() ==> is_value_type((#[trigger] list[i]).content),
        PartView::Code(b) => is_admissible_body(b),
        PartView::Exports(list, error) => error is None && forall|i: int|
            0 <= i < list.len() ==> (#[trigger] list[i]).name != "cairn_fuel"@,
        _ => true,
    }
}

/// Is a part of a module one that is admitted, behind those before it?
pub open spec fn is_admissible_at(parts: Seq<PartView>, i: int) -> bool {
    is_admissible(
        declared_types(parts.take(i)),
        declared_memories(parts.take(i)).len(),
        parts[i],
    )
}

/// Does a part export this?
pub open spec fn part_exports(p: PartView, name: Seq<char>, kind: ExternalKind) -> bool {
    p matches PartView::Exports(list, _) && exists|i: int|
        0 <= i < list.len() && (#[trigger] list[i]).name == name && list[i].kind == kind
}

/// Does a part import a function of this name?
pub open spec fn part_imports(p: PartView, name: Seq<char>) -> bool {
    p matches PartView::Imports(list, _) && exists|i: int|
        0 <= i < list.len() && (#[trigger] list[i]).name == name
}

/// Does a part of a module export this?
pub open spec fn exports(parts: Seq<PartView>, name: Seq<char>, kind: ExternalKind) -> bool {
    exists|i: int| 0 <= i < parts.len() && part_exports(#[trigger] parts[i], name, kind)
}

/// Does a part of a module import a function of this name?
pub open spec fn imports(parts: Seq<PartView>, name: Seq<char>) -> bool {
    exists|i: int| 0 <= i < parts.len() && part_imports(#[trigger] parts[i], name)
}

/// Is a memory one that is admitted: not shared, of 32 bits and ordinary pages, with a ceiling
/// that is not over the limit?
pub open spec fn is_admissible_memory(m: MemoryType, limits: Limits) -> bool {
    &&& !m.shared
    &&& !m.memory64
    &&& m.page_size_log2 is None
    &&& m.maximum matches Some(maximum) && maximum <= limits.max_memory_pages
}

/// Is a module one that is admitted? It was read to its end, each of its parts is admitted, it has
/// one memory, which is admitted, and it exports an entry point and its memory.
pub open spec fn is_admissible_module(m: ModuleView, limits: Limits) -> bool {
    &&& m.error is None
    &&& forall|i: int|
        0 <= i < m.parts.len() ==> #[trigger] is_admissible_at(m.parts, i)
    &&& declared_memories(m.parts).len() == 1
    &&& is_admissible_memory(declared_memories(m.parts)[0], limits)
    &&& exports(m.parts, "cairn_run"@, ExternalKind::Func)
    &&& exports(m.parts, "memory"@, ExternalKind::Memory)
}

proof fn lemma_each_last<S, T, E>(s: S, items: Seq<T>, one: spec_fn(S, T) -> Result<S, E>)
    requires
        items.len() > 0,
    ensures
        each(s, items, one) == (match each(s, items.drop_last(), one) {
            Err(e) => Err(e),
            Ok(t) => one(t, items.last()),
        }),
    decreases items.len(),
{
    if items.len() > 1 {
        assert(items.drop_last()[0] == items[0]);
        if let Ok(next) = one(s, items[0]) {
            lemma_each_last(next, items.drop_first(), one);
            assert(items.drop_first().drop_last() =~= items.drop_last().drop_first());
            assert(items.drop_first().last() == items.last());
        }
    } else {
        assert(items.drop_last() =~= Seq::empty());
        assert(items.drop_first() =~= Seq::empty());
        if let Ok(next) = one(s, items[0]) {
            assert(each(next, items.drop_first(), one) == Ok::<S, E>(next));
        }
    }
}

/// A list whose items are each taken in or not, whatever came before.
proof fn lemma_each_all<S, T, E>(
    s: S,
    items: Seq<T>,
    one: spec_fn(S, T) -> Result<S, E>,
    kept: spec_fn(S) -> bool,
    good: spec_fn(T) -> bool,
)
    requires
        kept(s),
        forall|s: S, t: T| kept(s) ==> ((#[trigger] one(s, t)) is Ok <==> good(t)),
        forall|s: S, t: T| kept(s) && (#[trigger] one(s, t)) is Ok ==> kept(one(s, t)->Ok_0),
    ensures
        each(s, items, one) is Ok <==> forall|i: int| 0 <= i < items.len() ==> good(#[trigger] items[i]),
        each(s, items, one) is Ok ==> kept(each(s, items, one)->Ok_0),
    decreases items.len(),
{
    if items.len() > 0 {
        lemma_each_last(s, items, one);
        lemma_each_all(s, items.drop_last(), one, kept, good);
        let n = items.len() - 1;
        assert forall|i: int| 0 <= i < n implies items.drop_last()[i] == #[trigger] items[i] by {}
        if each(s, items, one) is Ok {
            assert forall|i: int| 0 <= i < items.len() implies good(#[trigger] items[i]) by {
                if i < n {
                    assert(good(items.drop_last()[i]));
                }
            }
        }
        if forall|i: int| 0 <= i < items.len() ==> good(#[trigger] items[i]) {
            assert forall|i: int| 0 <= i < n implies good(#[trigger] items.drop_last()[i]) by {
                assert(good(items[i]));
            }
            assert(good(items[n]));
        }
    }
}

/// A flag that an item sets and none clears.
proof fn lemma_each_flag<S, T, E>(
    s: S,
    items: Seq<T>,
    one: spec_fn(S, T) -> Result<S, E>,
    flag: spec_fn(S) -> bool,
    sets: spec_fn(T) -> bool,
)
    requires
        forall|s: S, t: T| (#[trigger] one(s, t)) is Ok ==> flag(one(s, t)->Ok_0) == (flag(s)
            || sets(t)),
    ensures
        each(s, items, one) matches Ok(r) ==> flag(r) == (flag(s) || exists|i: int|
            0 <= i < items.len() && sets(#[trigger] items[i])),
    decreases items.len(),
{
    if items.len() > 0 {
        lemma_each_last(s, items, one);
        lemma_each_flag(s, items.drop_last(), one, flag, sets);
        let n = items.len() - 1;
        if let Ok(r) = each(s, items, one) {
            let before = each(s, items.drop_last(), one)->Ok_0;
            assert(one(before, items[n]) is Ok);
            if sets(items[n]) {
                assert(sets(items[n]));
            }
            if exists|i: int| 0 <= i < n && sets(#[trigger] items.drop_last()[i]) {
                let i = choose|i: int| 0 <= i < n && sets(#[trigger] items.drop_last()[i]);
                assert(sets(items[i]));
            }
            if exists|i: int| 0 <= i < items.len() && sets(#[trigger] items[i]) {
                let i = choose|i: int| 0 <= i < items.len() && sets(#[trigger] items[i]);
                if i < n {
                    assert(sets(items.drop_last()[i]));
                }
            }
        }
    }
}

proof fn lemma_type_names()
    ensures
        forall|name: Seq<char>| is_value_type(name) <==> !(#[trigger] type_named(name) is Ref),
        forall|name: Seq<char>| (#[trigger] type_named(name)) == ValTypeView::I32 <==> name == "I32"@,
{
}

proof fn lemma_first_reference(types: Seq<ValTypeView>)
    ensures
        first_reference(types) is None <==> forall|i: int|
            0 <= i < types.len() ==> !(#[trigger] types[i] is Ref),
    decreases types.len(),
{
    if types.len() > 0 {
        lemma_first_reference(types.drop_first());
        assert forall|i: int| 1 <= i < types.len() implies types.drop_first()[i - 1]
            == #[trigger] types[i] by {}
        if first_reference(types) is None {
            assert forall|i: int| 0 <= i < types.len() implies !(#[trigger] types[i] is Ref) by {
                if i > 0 {
                    assert(!(types.drop_first()[i - 1] is Ref));
                }
            }
        } else if !(types[0] is Ref) {
            let k = choose|k: int|
                0 <= k < types.drop_first().len() && (#[trigger] types.drop_first()[k]) is Ref;
            assert(types[k + 1] is Ref);
        }
    }
}

/// The signature that a type has.
spec fn signature(t: Option<(Seq<Seq<char>>, Seq<Seq<char>>)>) -> FuncTypeView {
    match t {
        None => FuncTypeView { params: Seq::empty(), results: Seq::empty() },
        Some((params, results)) => FuncTypeView {
            params: types_named(params),
            results: types_named(results),
        },
    }
}

/// Are these the signatures of types?
spec fn signed(
    types: Seq<Option<(Seq<Seq<char>>, Seq<Seq<char>>)>>,
    signatures: Seq<FuncTypeView>,
) -> bool {
    types.len() == signatures.len() && forall|i: int|
        0 <= i < types.len() ==> signatures[i] == signature(#[trigger] types[i])
}

proof fn lemma_type(s: Survey, t: Option<(Seq<Seq<char>>, Seq<Seq<char>>)>)
    ensures
        type_seen(s, t) is Ok <==> (t matches Some((params, results)) ==> are_value_types(params)
            && are_value_types(results)),
        type_seen(s, t) matches Ok(r) ==> r == (Survey { types: s.types.push(signature(t)), ..s }),
{
    lemma_type_names();
    if let Some((params, results)) = t {
        let (p, r) = (types_named(params), types_named(results));
        let all = p + r;
        lemma_first_reference(all);
        if type_seen(s, t) is Ok {
            assert forall|i: int| 0 <= i < params.len() implies is_value_type(
                #[trigger] params[i],
            ) by {
                assert(all[i] == type_named(params[i]));
            }
            assert forall|i: int| 0 <= i < results.len() implies is_value_type(
                #[trigger] results[i],
            ) by {
                assert(all[params.len() + i] == type_named(results[i]));
            }
        }
        if are_value_types(params) && are_value_types(results) {
            assert forall|i: int| 0 <= i < all.len() implies !(#[trigger] all[i] is Ref) by {
                if i < params.len() {
                    assert(is_value_type(params[i]));
                    assert(all[i] == type_named(params[i]));
                } else {
                    assert(is_value_type(results[i - params.len()]));
                    assert(all[i] == type_named(results[i - params.len()]));
                }
            }
        }
    }
}

proof fn lemma_types(s: Survey, list: Seq<Option<(Seq<Seq<char>>, Seq<Seq<char>>)>>)
    ensures
        ({
            let one = |s: Survey, t: Option<(Seq<Seq<char>>, Seq<Seq<char>>)>| type_seen(s, t);
            let r = each(s, list, one);
            &&& r is Ok <==> is_admissible(Seq::empty(), 0, PartView::Types(list, None))
            &&& r is Ok ==> r->Ok_0 == (Survey {
                types: s.types + list.map_values(
                    |t: Option<(Seq<Seq<char>>, Seq<Seq<char>>)>| signature(t),
                ),
                ..s
            })
        }),
    decreases list.len(),
{
    let one = |s: Survey, t: Option<(Seq<Seq<char>>, Seq<Seq<char>>)>| type_seen(s, t);
    let good = |t: Option<(Seq<Seq<char>>, Seq<Seq<char>>)>|
        t matches Some((params, results)) ==> are_value_types(params) && are_value_types(results);
    assert forall|s: Survey, t: Option<(Seq<Seq<char>>, Seq<Seq<char>>)>| (#[trigger] one(
        s,
        t,
    ) is Ok) == good(t) by {
        lemma_type(s, t);
    }
    lemma_each_all(s, list, one, |s: Survey| true, good);
    let r = each(s, list, one);
    if is_admissible(Seq::empty(), 0, PartView::Types(list, None)) {
        assert forall|i: int| 0 <= i < list.len() implies good(#[trigger] list[i]) by {}
    }
    if r is Ok {
        assert forall|i: int| 0 <= i < list.len() implies ((#[trigger] list[i]) matches Some(
            (params, results),
        ) ==> are_value_types(params) && are_value_types(results)) by {
            assert(good(list[i]));
        }
        let all = list.map_values(|t: Option<(Seq<Seq<char>>, Seq<Seq<char>>)>| signature(t));
        if list.len() > 0 {
            lemma_each_last(s, list, one);
            lemma_types(s, list.drop_last());
            let before = each(s, list.drop_last(), one)->Ok_0;
            lemma_type(before, list.last());
            assert(r->Ok_0.types =~= s.types + all);
        } else {
            assert(s.types + all =~= s.types);
        }
    }
}

/// An import is taken in exactly if it is a host function with its type.
proof fn lemma_import(
    types: Seq<Option<(Seq<Seq<char>>, Seq<Seq<char>>)>>,
    s: Survey,
    i: ImportView,
)
    requires
        signed(types, s.types),
    ensures
        import_seen(s, i) is Ok <==> is_host_function(types, i),
        import_seen(s, i) matches Ok(r) ==> r == (Survey {
            imports_input: s.imports_input || i.name == "input"@,
            imports_output: s.imports_output || i.name == "output"@,
            ..s
        }),
{
    lemma_type_names();
    reveal_strlit("input");
    reveal_strlit("output");
    reveal_strlit("charge");
    assert("input"@[0] != "charge"@[0]);
    assert("output"@[0] != "charge"@[0]);
    assert("output"@[0] != "input"@[0]);
    if let ImportTypeView::Func(index) = i.ty {
        if index < types.len() {
            let t = types[index as int];
            let f = signature(t);
            assert(s.types[index as int] == f);
            let (two, one) = (seq![ValTypeView::I32, ValTypeView::I32], seq![ValTypeView::I32]);
            if let Some((params, results)) = t {
                assert(f.params == two <==> params == seq!["I32"@, "I32"@]) by {
                    if f.params == two {
                        assert(params.len() == f.params.len());
                        assert(f.params[0] == type_named(params[0]));
                        assert(f.params[1] == type_named(params[1]));
                        assert(params =~= seq!["I32"@, "I32"@]);
                    }
                    if params == seq!["I32"@, "I32"@] {
                        assert(f.params =~= two);
                    }
                }
                assert(f.results == one <==> results == seq!["I32"@]) by {
                    if f.results == one {
                        assert(results.len() == f.results.len());
                        assert(f.results[0] == type_named(results[0]));
                        assert(results =~= seq!["I32"@]);
                    }
                    if results == seq!["I32"@] {
                        assert(f.results =~= one);
                    }
                }
                assert(f.results == Seq::<ValTypeView>::empty() <==> results == Seq::<
                    Seq<char>,
                >::empty()) by {
                    if f.results == Seq::<ValTypeView>::empty() {
                        assert(results.len() == f.results.len());
                        assert(results =~= Seq::empty());
                    }
                    if results == Seq::<Seq<char>>::empty() {
                        assert(f.results =~= Seq::empty());
                    }
                }
            } else {
                assert(f.params.len() == 0);
            }
        }
    }
}

proof fn lemma_imports(
    types: Seq<Option<(Seq<Seq<char>>, Seq<Seq<char>>)>>,
    s: Survey,
    list: Seq<ImportView>,
)
    requires
        signed(types, s.types),
    ensures
        ({
            let one = |s: Survey, i: ImportView| import_seen(s, i);
            let r = each(s, list, one);
            &&& r is Ok <==> is_admissible(types, 0, PartView::Imports(list, None))
            &&& r matches Ok(t) ==> t == (Survey {
                imports_input: s.imports_input || part_imports(
                    PartView::Imports(list, None),
                    "input"@,
                ),
                imports_output: s.imports_output || part_imports(
                    PartView::Imports(list, None),
                    "output"@,
                ),
                ..s
            })
        }),
{
    let one = |s: Survey, i: ImportView| import_seen(s, i);
    let good = |i: ImportView| is_host_function(types, i);
    let kept = |t: Survey|
        t == (Survey {
            imports_input: t.imports_input,
            imports_output: t.imports_output,
            ..s
        });
    assert forall|t: Survey, i: ImportView| kept(t) implies ((#[trigger] one(t, i)) is Ok
        <==> good(i)) by {
        lemma_import(types, t, i);
    }
    assert forall|t: Survey, i: ImportView| kept(t) && (#[trigger] one(t, i)) is Ok implies kept(
        one(t, i)->Ok_0,
    ) by {
        lemma_import(types, t, i);
    }
    lemma_each_all(s, list, one, kept, good);
    reveal_strlit("input");
    reveal_strlit("output");
    assert("output"@[0] != "input"@[0]);
    lemma_each_flag(
        s,
        list,
        one,
        |t: Survey| t.imports_input,
        |i: ImportView| i.name == "input"@,
    );
    lemma_each_flag(
        s,
        list,
        one,
        |t: Survey| t.imports_output,
        |i: ImportView| i.name == "output"@,
    );
    if is_admissible(types, 0, PartView::Imports(list, None)) {
        assert forall|i: int| 0 <= i < list.len() implies good(#[trigger] list[i]) by {}
    }
    if each(s, list, one) is Ok {
        assert forall|i: int| 0 <= i < list.len() implies is_host_function(
            types,
            #[trigger] list[i],
        ) by {
            assert(good(list[i]));
        }
    }
}

proof fn lemma_memories(s: Survey, list: Seq<MemoryType>)
    ensures
        ({
            let one = |s: Survey, m: MemoryType| memory_seen(s, m);
            let r = each(s, list, one);
            &&& r is Ok <==> list.len() == 0 || (list.len() == 1 && s.memory is None)
            &&& r matches Ok(t) ==> t == (Survey {
                memory: if list.len() == 0 {
                    s.memory
                } else {
                    Some(list[0])
                },
                ..s
            })
        }),
{
    let one = |s: Survey, m: MemoryType| memory_seen(s, m);
    if list.len() > 0 {
        if let Ok(next) = one(s, list[0]) {
            let rest = list.drop_first();
            if rest.len() > 0 {
                assert(one(next, rest[0]) is Err);
                assert(each(next, rest, one) is Err);
            }
        }
    }
}

proof fn lemma_tables(list: Seq<TableType>)
    ensures
        ({
            let one = |n: nat, t: TableType| table_seen(n, t);
            each(0nat, list, one) is Ok <==> is_admissible(
                Seq::empty(),
                0,
                PartView::Tables(list, None),
            )
        }),
{
    let one = |n: nat, t: TableType| table_seen(n, t);
    if list.len() > 0 {
        if let Ok(next) = one(0nat, list[0]) {
            let rest = list.drop_first();
            if rest.len() > 0 {
                assert(one(next, rest[0]) is Err);
                assert(each(next, rest, one) is Err);
            }
        } else {
            assert(!list[0].holds_functions);
        }
    }
}

proof fn lemma_globals(list: Seq<GlobalView>)
    ensures
        ({
            let one = |n: nat, g: GlobalView| global_seen(n, g);
            each(0nat, list, one) is Ok <==> is_admissible(
                Seq::empty(),
                0,
                PartView::Globals(list, None),
            )
        }),
{
    lemma_type_names();
    let one = |n: nat, g: GlobalView| global_seen(n, g);
    let good = |g: GlobalView| is_value_type(g.content);
    lemma_each_all(0nat, list, one, |n: nat| true, good);
    let p = PartView::Globals(list, None);
    if is_admissible(Seq::empty(), 0, p) {
        assert forall|i: int| 0 <= i < list.len() implies good(#[trigger] list[i]) by {
            assert(p->Globals_0[i] == list[i]);
            assert(is_value_type(list[i].content));
        }
    }
    if each(0nat, list, one) is Ok {
        assert forall|i: int| 0 <= i < list.len() implies is_value_type(
            (#[trigger] list[i]).content,
        ) by {
            assert(good(list[i]));
        }
    }
}

proof fn lemma_locals(list: Seq<(u32, Seq<char>)>)
    ensures
        ({
            let one = |s: (), run: (u32, Seq<char>)| local_seen(s, run);
            each((), list, one) is Ok <==> forall|i: int|
                0 <= i < list.len() ==> is_value_type((#[trigger] list[i]).1)
        }),
{
    lemma_type_names();
    let one = |s: (), run: (u32, Seq<char>)| local_seen(s, run);
    let good = |run: (u32, Seq<char>)| is_value_type(run.1);
    lemma_each_all((), list, one, |s: ()| true, good);
    if forall|i: int| 0 <= i < list.len() ==> is_value_type((#[trigger] list[i]).1) {
        assert forall|i: int| 0 <= i < list.len() implies good(#[trigger] list[i]) by {
            assert(is_value_type(list[i].1));
        }
    }
    if each((), list, one) is Ok {
        assert forall|i: int| 0 <= i < list.len() implies is_value_type((#[trigger] list[i]).1) by {
            assert(good(list[i]));
        }
    }
}

proof fn lemma_operators(list: Seq<Operator>)
    ensures
        ({
            let one = |s: (), op: Operator| operator_seen(s, op);
            each((), list, one) is Ok <==> forall|i: int|
                0 <= i < list.len() ==> !handles_references(#[trigger] list[i])
        }),
{
    let one = |s: (), op: Operator| operator_seen(s, op);
    let good = |op: Operator| !handles_references(op);
    lemma_each_all((), list, one, |s: ()| true, good);
    if forall|i: int| 0 <= i < list.len() ==> !handles_references(#[trigger] list[i]) {
        assert forall|i: int| 0 <= i < list.len() implies good(#[trigger] list[i]) by {
            assert(!handles_references(list[i]));
        }
    }
    if each((), list, one) is Ok {
        assert forall|i: int| 0 <= i < list.len() implies !handles_references(
            #[trigger] list[i],
        ) by {
            assert(good(list[i]));
        }
    }
}

proof fn lemma_exports(s: Survey, list: Seq<ExportView>)
    ensures
        ({
            let one = |s: Survey, e: ExportView| export_seen(s, e);
            let r = each(s, list, one);
            let p = PartView::Exports(list, None);
            &&& r is Ok <==> is_admissible(Seq::empty(), 0, p)
            &&& r matches Ok(t) ==> t == (Survey {
                exports_entry: s.exports_entry || part_exports(
                    p,
                    "cairn_run"@,
                    ExternalKind::Func,
                ),
                exports_memory: s.exports_memory || part_exports(
                    p,
                    "memory"@,
                    ExternalKind::Memory,
                ),
                ..s
            })
        }),
{
    let one = |s: Survey, e: ExportView| export_seen(s, e);
    let good = |e: ExportView| e.name != "cairn_fuel"@;
    let kept = |t: Survey|
        t == (Survey {
            exports_entry: t.exports_entry,
            exports_memory: t.exports_memory,
            ..s
        });
    let entry = |e: ExportView| e.name == "cairn_run"@ && e.kind == ExternalKind::Func;
    let memory = |e: ExportView| e.name == "memory"@ && e.kind == ExternalKind::Memory;
    reveal_strlit("cairn_fuel");
    reveal_strlit("cairn_run");
    reveal_strlit("memory");
    assert("cairn_fuel"@.len() == 10 && "cairn_run"@.len() == 9 && "memory"@.len() == 6);
    lemma_each_all(s, list, one, kept, good);
    lemma_each_flag(s, list, one, |t: Survey| t.exports_entry, entry);
    lemma_each_flag(s, list, one, |t: Survey| t.exports_memory, memory);
    let p = PartView::Exports(list, None);
    if is_admissible(Seq::empty(), 0, p) {
        assert forall|i: int| 0 <= i < list.len() implies good(#[trigger] list[i]) by {}
    }
    if each(s, list, one) is Ok {
        assert forall|i: int| 0 <= i < list.len() implies (#[trigger] list[i]).name
            != "cairn_fuel"@ by {
            assert(good(list[i]));
        }
        if part_exports(p, "cairn_run"@, ExternalKind::Func) {
            let i = choose|i: int|
                0 <= i < list.len() && (#[trigger] list[i]).name == "cairn_run"@ && list[i].kind
                    == ExternalKind::Func;
            assert(entry(list[i]));
        }
        if part_exports(p, "memory"@, ExternalKind::Memory) {
            let i = choose|i: int|
                0 <= i < list.len() && (#[trigger] list[i]).name == "memory"@ && list[i].kind
                    == ExternalKind::Memory;
            assert(memory(list[i]));
        }
    }
}

/// What a part does to what has been seen of a module.
proof fn lemma_part(
    types: Seq<Option<(Seq<Seq<char>>, Seq<Seq<char>>)>>,
    s: Survey,
    p: PartView,
)
    requires
        signed(types, s.types),
    ensures
        part_seen(s, p) is Ok <==> is_admissible(
            types,
            if s.memory is Some {
                1
            } else {
                0
            },
            p,
        ),
        part_seen(s, p) matches Ok(t) ==> t == (Survey {
            types: t.types,
            memory: match p {
                PartView::Memories(list, _) => if list.len() == 0 {
                    s.memory
                } else {
                    Some(list[0])
                },
                _ => s.memory,
            },
            imports_input: s.imports_input || part_imports(p, "input"@),
            imports_output: s.imports_output || part_imports(p, "output"@),
            exports_entry: s.exports_entry || part_exports(p, "cairn_run"@, ExternalKind::Func),
            exports_memory: s.exports_memory || part_exports(p, "memory"@, ExternalKind::Memory),
        }) && signed(
            match p {
                PartView::Types(list, _) => types + list,
                _ => types,
            },
            t.types,
        ),
{
    match p {
        PartView::Types(list, error) => {
            lemma_types(s, list);
            if let Ok(t) = part_seen(s, p) {
                let all = types + list;
                assert forall|i: int| 0 <= i < all.len() implies t.types[i] == signature(
                    #[trigger] all[i],
                ) by {
                    if i < types.len() {
                        assert(s.types[i] == signature(types[i]));
                    }
                }
            }
        },
        PartView::Imports(list, error) => lemma_imports(types, s, list),
        PartView::Memories(list, error) => lemma_memories(s, list),
        PartView::Tables(list, error) => lemma_tables(list),
        PartView::Globals(list, error) => lemma_globals(list),
        PartView::Code(b) => {
            lemma_locals(b.locals.0);
            if let Ok(l) = b.code {
                lemma_operators(l.ops);
            }
        },
        PartView::Exports(list, error) => lemma_exports(s, list),
        _ => {},
    }
}

/// What has been seen once the first parts of a module have been taken in.
spec fn has_seen(s: Survey, parts: Seq<PartView>) -> bool {
    &&& signed(declared_types(parts), s.types)
    &&& declared_memories(parts).len() <= 1
    &&& s.memory == (if declared_memories(parts).len() == 0 {
        None
    } else {
        Some(declared_memories(parts)[0])
    })
    &&& s.imports_input == imports(parts, "input"@)
    &&& s.imports_output == imports(parts, "output"@)
    &&& s.exports_entry == exports(parts, "cairn_run"@, ExternalKind::Func)
    &&& s.exports_memory == exports(parts, "memory"@, ExternalKind::Memory)
}

proof fn lemma_one_more(parts: Seq<PartView>, name: Seq<char>, kind: ExternalKind)
    requires
        parts.len() > 0,
    ensures
        imports(parts, name) == (imports(parts.drop_last(), name) || part_imports(
            parts.last(),
            name,
        )),
        exports(parts, name, kind) == (exports(parts.drop_last(), name, kind) || part_exports(
            parts.last(),
            name,
            kind,
        )),
{
    let n = parts.len() - 1;
    if imports(parts, name) {
        let i = choose|i: int| 0 <= i < parts.len() && part_imports(#[trigger] parts[i], name);
        if i < n {
            assert(part_imports(parts.drop_last()[i], name));
        }
    }
    if imports(parts.drop_last(), name) {
        let i = choose|i: int| 0 <= i < n && part_imports(#[trigger] parts.drop_last()[i], name);
        assert(part_imports(parts[i], name));
    }
    if part_imports(parts.last(), name) {
        assert(part_imports(parts[n], name));
    }
    if exports(parts, name, kind) {
        let i = choose|i: int| 0 <= i < parts.len() && part_exports(#[trigger] parts[i], name, kind);
        if i < n {
            assert(part_exports(parts.drop_last()[i], name, kind));
        }
    }
    if exports(parts.drop_last(), name, kind) {
        let i = choose|i: int|
            0 <= i < n && part_exports(#[trigger] parts.drop_last()[i], name, kind);
        assert(part_exports(parts[i], name, kind));
    }
    if part_exports(parts.last(), name, kind) {
        assert(part_exports(parts[n], name, kind));
    }
}

/// Are all parts of a module admitted, each behind those before it?
spec fn all_admissible(parts: Seq<PartView>) -> bool {
    forall|i: int| 0 <= i < parts.len() ==> #[trigger] is_admissible_at(parts, i)
}

proof fn lemma_all_admissible(parts: Seq<PartView>)
    requires
        parts.len() > 0,
    ensures
        all_admissible(parts) <==> all_admissible(parts.drop_last()) && is_admissible(
            declared_types(parts.drop_last()),
            declared_memories(parts.drop_last()).len(),
            parts.last(),
        ),
{
    let n = parts.len() - 1;
    let before = parts.drop_last();
    assert(parts.take(n) =~= before);
    assert forall|i: int| 0 <= i < n implies is_admissible_at(parts, i) == is_admissible_at(
        before,
        i,
    ) by {
        assert(parts.take(i) =~= before.take(i));
        assert(parts[i] == before[i]);
    }
    assert(is_admissible_at(parts, n) == is_admissible(
        declared_types(before),
        declared_memories(before).len(),
        parts.last(),
    ));
}

proof fn lemma_seen(s: Survey, parts: Seq<PartView>)
    requires
        parts.len() > 0,
        has_seen(s, parts.drop_last()),
    ensures
        part_seen(s, parts.last()) is Ok <==> is_admissible(
            declared_types(parts.drop_last()),
            declared_memories(parts.drop_last()).len(),
            parts.last(),
        ),
        part_seen(s, parts.last()) matches Ok(t) ==> has_seen(t, parts),
{
    lemma_part(declared_types(parts.drop_last()), s, parts.last());
    lemma_one_more(parts, "input"@, ExternalKind::Func);
    lemma_one_more(parts, "output"@, ExternalKind::Func);
    lemma_one_more(parts, "cairn_run"@, ExternalKind::Func);
    lemma_one_more(parts, "memory"@, ExternalKind::Memory);
}

proof fn lemma_parts(parts: Seq<PartView>)
    ensures
        ({
            let r = each(unseen(), parts, |s: Survey, p: PartView| part_seen(s, p));
            &&& r is Ok <==> all_admissible(parts)
            &&& r matches Ok(s) ==> has_seen(s, parts)
        }),
    decreases parts.len(),
{
    let one = |s: Survey, p: PartView| part_seen(s, p);
    if parts.len() > 0 {
        lemma_each_last(unseen(), parts, one);
        lemma_parts(parts.drop_last());
        lemma_all_admissible(parts);
        if let Ok(s) = each(unseen(), parts.drop_last(), one) {
            lemma_seen(s, parts);
        }
    }
}

/// The structural rules accept a module exactly if it is one that is admitted, and report what it
/// declares: the size and the ceiling of its memory, and which host functions it imports.
pub proof fn law_exactly_what_is_admissible_is_admitted(m: ModuleView, limits: Limits)
    ensures
        inspected(m, limits) is Ok <==> is_admissible_module(m, limits),
        inspected(m, limits) matches Ok(facts) ==> facts.memory_pages_max == declared_memories(
            m.parts,
        )[0].maximum->0 && facts.memory_pages_min == declared_memories(m.parts)[0].initial as u32
            && facts.imports_input == imports(m.parts, "input"@) && facts.imports_output == imports(
            m.parts,
            "output"@,
        ),
{
    lemma_parts(m.parts);
}

/// A submitted module is accepted exactly if it is within the size limit, the validator has
/// nothing against it with the admitted proposals switched on, and it is one that is admitted.
pub proof fn law_exactly_what_is_admissible_is_accepted(module: Seq<u8>, limits: Limits)
    ensures
        submitted(module, limits) is Ok <==> module.len() <= limits.max_module_bytes
            && objection_to(
            module,
            seq![
                Feature::MutableGlobal,
                Feature::SignExtension,
                Feature::SaturatingFloatToInt,
                Feature::MultiValue,
                Feature::BulkMemory,
                Feature::Floats,
                Feature::ReferenceTypes,
            ],
        ) is None && is_admissible_module(module_of(module), limits),
        submitted(module, limits) matches Ok(facts) ==> inspected(module_of(module), limits) == Ok::<
            ModuleFacts,
            RejectionView,
        >(facts),
{
    assert(admitted() =~= seq![
        Feature::MutableGlobal,
        Feature::SignExtension,
        Feature::SaturatingFloatToInt,
        Feature::MultiValue,
        Feature::BulkMemory,
        Feature::Floats,
        Feature::ReferenceTypes,
    ]);
    law_exactly_what_is_admissible_is_admitted(module_of(module), limits);
}

/// What is refused of a list was refused because of one of its items.
proof fn lemma_each_blame<S, T, E>(
    s: S,
    items: Seq<T>,
    one: spec_fn(S, T) -> Result<S, E>,
    kept: spec_fn(S) -> bool,
    blames: spec_fn(T, E) -> bool,
)
    requires
        kept(s),
        forall|s: S, t: T| kept(s) && (#[trigger] one(s, t)) is Ok ==> kept(one(s, t)->Ok_0),
        forall|s: S, t: T|
            kept(s) && (#[trigger] one(s, t)) is Err ==> blames(t, one(s, t)->Err_0),
    ensures
        each(s, items, one) matches Err(e) ==> exists|i: int|
            0 <= i < items.len() && blames(#[trigger] items[i], e),
    decreases items.len(),
{
    if items.len() > 0 {
        if one(s, items[0]) is Ok {
            lemma_each_blame(one(s, items[0])->Ok_0, items.drop_first(), one, kept, blames);
            if let Err(e) = each(s, items, one) {
                let i = choose|i: int|
                    0 <= i < items.drop_first().len() && blames(
                        #[trigger] items.drop_first()[i],
                        e,
                    );
                assert(blames(items[i + 1], e));
            }
        } else {
            assert(blames(items[0], one(s, items[0])->Err_0));
        }
    }
}

/// Is a type to blame for a refusal: is there a reference in it?
pub open spec fn blames_type(
    t: Option<(Seq<Seq<char>>, Seq<Seq<char>>)>,
    r: RejectionView,
) -> bool {
    r is ReferenceValue && (t matches Some((params, results)) && !(are_value_types(params)
        && are_value_types(results)))
}

/// Is an import to blame for a refusal?
pub open spec fn blames_import(
    types: Seq<Option<(Seq<Seq<char>>, Seq<Seq<char>>)>>,
    i: ImportView,
    r: RejectionView,
) -> bool {
    match r {
        RejectionView::ForeignImport { module, name } => i.module == module && i.name == name
            && module != "cairn"@,
        RejectionView::ReservedImport { name } => i.module == "cairn"@ && i.name == name && name
            == "charge"@,
        RejectionView::ImportedMemory => i.module == "cairn"@ && i.ty is Memory,
        RejectionView::NonFunctionHostImport { name } => i.module == "cairn"@ && i.name == name && !(
        i.ty is Memory) && !(i.ty is Func),
        RejectionView::UnknownHostFunction { name } => i.module == "cairn"@ && i.name == name && i.ty
            is Func && name != "input"@ && name != "output"@,
        RejectionView::HostSignatureMismatch { name, .. } => {
            &&& i.module == "cairn"@
            &&& i.name == name
            &&& name == "input"@ || name == "output"@
            &&& i.ty matches ImportTypeView::Func(t) && t < types.len()
            &&& !is_host_function(types, i)
        },
        RejectionView::Invalid { .. } => i.ty matches ImportTypeView::Func(t) && t >= types.len(),
        _ => false,
    }
}

/// What kept a part from being read to its end, if anything did.
pub open spec fn fault(p: PartView) -> Option<Seq<char>> {
    match p {
        PartView::Types(_, e) => e,
        PartView::Imports(_, e) => e,
        PartView::Tables(_, e) => e,
        PartView::Memories(_, e) => e,
        PartView::Globals(_, e) => e,
        PartView::Exports(_, e) => e,
        PartView::Code(b) => match (b.locals.1, b.code) {
            (Some(e), _) => Some(e),
            (None, Err(e)) => Some(e),
            (None, Ok(l)) => if l.complete {
                None
            } else {
                Some(l.error)
            },
        },
        _ => None,
    }
}

/// Is a part to blame for a refusal, behind these types and so many memories?
pub open spec fn blames(
    types: Seq<Option<(Seq<Seq<char>>, Seq<Seq<char>>)>>,
    memories: nat,
    p: PartView,
    r: RejectionView,
) -> bool {
    ||| r matches RejectionView::Invalid { detail } && fault(p) == Some(detail)
    ||| match p {
        PartView::Types(list, _) => exists|i: int|
            0 <= i < list.len() && blames_type(#[trigger] list[i], r),
        PartView::Imports(list, _) => exists|i: int|
            0 <= i < list.len() && blames_import(types, #[trigger] list[i], r),
        PartView::Memories(list, _) => r is MultipleMemories && memories + list.len() > 1,
        PartView::Start(_) => r is StartSection,
        PartView::Tables(list, _) => (r is MultipleTables && list.len() > 1) || (r
            is NonFunctionTable && exists|i: int|
            0 <= i < list.len() && !(#[trigger] list[i]).holds_functions),
        PartView::Globals(list, _) => r is ReferenceValue && exists|i: int|
            0 <= i < list.len() && !is_value_type((#[trigger] list[i]).content),
        PartView::Code(b) => (r is ReferenceValue && exists|i: int|
            0 <= i < b.locals.0.len() && !is_value_type((#[trigger] b.locals.0[i]).1)) || (r
            is ReferenceInstruction && (b.code matches Ok(l) && exists|i: int|
            0 <= i < l.ops.len() && handles_references(#[trigger] l.ops[i]))),
        PartView::Exports(list, _) => r == (RejectionView::ReservedExport { name: "cairn_fuel"@ })
            && exists|i: int| 0 <= i < list.len() && (#[trigger] list[i]).name == "cairn_fuel"@,
        _ => false,
    }
}

proof fn lemma_import_blame(
    types: Seq<Option<(Seq<Seq<char>>, Seq<Seq<char>>)>>,
    s: Survey,
    i: ImportView,
)
    requires
        signed(types, s.types),
    ensures
        import_seen(s, i) matches Err(r) ==> blames_import(types, i, r),
{
    lemma_import(types, s, i);
}

proof fn lemma_part_blame(
    types: Seq<Option<(Seq<Seq<char>>, Seq<Seq<char>>)>>,
    s: Survey,
    p: PartView,
)
    requires
        signed(types, s.types),
    ensures
        part_seen(s, p) matches Err(r) ==> blames(
            types,
            if s.memory is Some {
                1
            } else {
                0
            },
            p,
            r,
        ),
{
    match p {
        PartView::Types(list, error) => {
            let one = |s: Survey, t: Option<(Seq<Seq<char>>, Seq<Seq<char>>)>| type_seen(s, t);
            assert forall|s: Survey, t: Option<(Seq<Seq<char>>, Seq<Seq<char>>)>|
                (#[trigger] one(s, t)) is Err implies blames_type(t, one(s, t)->Err_0) by {
                lemma_type(s, t);
            }
            lemma_each_blame(
                s,
                list,
                one,
                |s: Survey| true,
                |t: Option<(Seq<Seq<char>>, Seq<Seq<char>>)>, r: RejectionView| blames_type(t, r),
            );
        },
        PartView::Imports(list, error) => {
            let one = |s: Survey, i: ImportView| import_seen(s, i);
            let kept = |s: Survey| signed(types, s.types);
            let blame = |i: ImportView, r: RejectionView| blames_import(types, i, r);
            assert forall|s: Survey, i: ImportView|
                kept(s) && (#[trigger] one(s, i)) is Err implies blame(i, one(s, i)->Err_0) by {
                lemma_import_blame(types, s, i);
            }
            lemma_each_blame(s, list, one, kept, blame);
        },
        PartView::Memories(list, error) => {
            lemma_memories(s, list);
            let one = |s: Survey, m: MemoryType| memory_seen(s, m);
            let blame = |m: MemoryType, r: RejectionView| r is MultipleMemories;
            lemma_each_blame(s, list, one, |s: Survey| true, blame);
        },
        PartView::Tables(list, error) => {
            let one = |n: nat, t: TableType| table_seen(n, t);
            let blame = |t: TableType, r: RejectionView|
                r is MultipleTables || r is NonFunctionTable && !t.holds_functions;
            lemma_each_blame(0nat, list, one, |n: nat| true, blame);
            if list.len() == 1 {
                assert(list.drop_first() =~= Seq::empty());
                assert(each(1nat, list.drop_first(), one) is Ok);
            }
            if let Err(r) = each(0nat, list, one) {
                let i = choose|i: int| 0 <= i < list.len() && blame(#[trigger] list[i], r);
                assert(list.len() <= 1 ==> !list[i].holds_functions);
            }
        },
        PartView::Globals(list, error) => {
            let one = |n: nat, g: GlobalView| global_seen(n, g);
            let blame = |g: GlobalView, r: RejectionView|
                r is ReferenceValue && !is_value_type(g.content);
            lemma_each_blame(0nat, list, one, |n: nat| true, blame);
            if let Err(r) = each(0nat, list, one) {
                let i = choose|i: int| 0 <= i < list.len() && blame(#[trigger] list[i], r);
                assert(!is_value_type(list[i].content));
            }
        },
        PartView::Code(b) => {
            lemma_body_blame(b);
        },
        PartView::Exports(list, error) => {
            let one = |s: Survey, e: ExportView| export_seen(s, e);
            let blame = |e: ExportView, r: RejectionView|
                e.name == "cairn_fuel"@ && r == (RejectionView::ReservedExport {
                    name: "cairn_fuel"@,
                });
            lemma_each_blame(s, list, one, |s: Survey| true, blame);
            if let Err(r) = each(s, list, one) {
                let i = choose|i: int| 0 <= i < list.len() && blame(#[trigger] list[i], r);
                assert(list[i].name == "cairn_fuel"@);
            }
        },
        _ => {},
    }
}

proof fn lemma_body_blame(b: BodyView)
    ensures
        body_seen(b) matches Err(r) ==> blames(Seq::empty(), 0, PartView::Code(b), r),
{
    let local = |s: (), run: (u32, Seq<char>)| local_seen(s, run);
    let local_blame = |run: (u32, Seq<char>), r: RejectionView|
        r is ReferenceValue && !is_value_type(run.1);
    let runs = b.locals.0;
    lemma_each_blame((), runs, local, |s: ()| true, local_blame);
    if let Err(r) = each((), runs, local) {
        let i = choose|i: int| 0 <= i < runs.len() && local_blame(#[trigger] runs[i], r);
        assert(!is_value_type(runs[i].1));
    } else if let Ok(l) = b.code {
        let one = |s: (), op: Operator| operator_seen(s, op);
        let blame = |op: Operator, r: RejectionView|
            r is ReferenceInstruction && handles_references(op);
        lemma_each_blame((), l.ops, one, |s: ()| true, blame);
        if let Err(r) = each((), l.ops, one) {
            let i = choose|i: int| 0 <= i < l.ops.len() && blame(#[trigger] l.ops[i], r);
            assert(handles_references(l.ops[i]));
        }
    }
}

/// Is a part of a module to blame for a refusal, behind those before it?
pub open spec fn blames_at(parts: Seq<PartView>, k: int, r: RejectionView) -> bool {
    blames(declared_types(parts.take(k)), declared_memories(parts.take(k)).len(), parts[k], r)
}

proof fn lemma_parts_blame(parts: Seq<PartView>)
    ensures
        ({
            let o = each(unseen(), parts, |s: Survey, p: PartView| part_seen(s, p));
            o matches Err(r) ==> exists|k: int| 0 <= k < parts.len() && #[trigger] blames_at(parts, k, r)
        }),
    decreases parts.len(),
{
    if parts.len() > 0 {
        let one = |s: Survey, p: PartView| part_seen(s, p);
        let n = parts.len() - 1;
        let before = parts.drop_last();
        lemma_each_last(unseen(), parts, one);
        lemma_parts_blame(before);
        lemma_parts(before);
        if let Err(r) = each(unseen(), parts, one) {
            if each(unseen(), before, one) is Err {
                let k = choose|k: int| 0 <= k < before.len() && #[trigger] blames_at(before, k, r);
                assert(before.take(k) =~= parts.take(k));
                assert(blames_at(parts, k, r));
            } else {
                let s = each(unseen(), before, one)->Ok_0;
                assert(before =~= parts.take(n));
                lemma_part_blame(declared_types(before), s, parts[n]);
                assert(blames_at(parts, n, r));
            }
        }
    }
}

/// A refusal is true. It names a part of the module that is as it says, or what the module as a
/// whole lacks or has in excess.
pub proof fn law_a_refusal_is_true(m: ModuleView, limits: Limits)
    ensures
        inspected(m, limits) matches Err(r) ==> {
            let memories = declared_memories(m.parts);
            ||| exists|k: int| 0 <= k < m.parts.len() && #[trigger] blames_at(m.parts, k, r)
            ||| r matches RejectionView::Invalid { detail } && m.error == Some(detail)
            ||| r is NoMemory && memories.len() == 0
            ||| memories.len() > 0 && match r {
                RejectionView::SharedMemory => memories[0].shared,
                RejectionView::Memory64 => memories[0].memory64,
                RejectionView::CustomPageSize => memories[0].page_size_log2 is Some,
                RejectionView::UnboundedMemory => memories[0].maximum is None,
                RejectionView::MemoryTooLarge { pages, limit } => memories[0].maximum == Some(pages)
                    && limit == limits.max_memory_pages && pages > limit,
                RejectionView::MissingExport { name } => (name == "cairn_run"@ && !exports(
                    m.parts,
                    "cairn_run"@,
                    ExternalKind::Func,
                )) || (name == "memory"@ && !exports(m.parts, "memory"@, ExternalKind::Memory)),
                _ => false,
            }
        },
{
    lemma_parts(m.parts);
    lemma_parts_blame(m.parts);
}

/// A module is refused for its size exactly if it is over the limit, and for what the validator
/// objects to only then.
pub proof fn law_size_is_judged_first(module: Seq<u8>, limits: Limits)
    ensures
        submitted(module, limits) == Err::<ModuleFacts, _>(
            RejectionView::TooLarge {
                bytes: module.len() as usize,
                limit: limits.max_module_bytes,
            },
        ) <==> module.len() > limits.max_module_bytes,
{
    lemma_parts(module_of(module).parts);
    law_a_refusal_is_true(module_of(module), limits);
}

} // verus!
