//! What an engine leaves in a NaN is not seen.
//!
//! Where arithmetic makes a NaN, the standard lets an engine choose its bits. The interpreter
//! always leaves the canonical ones; another engine may not. Here an execution takes every such
//! choice from outside, and two executions of one module, fixed where values escape, are held
//! against each other: whatever each of them chooses, they end in the same trap or with the same
//! output.
use crate::canon::{
    FloatWidth, alike, escaping, fixed, is_nan_value, law_fixing_changes_only_nans,
    law_payloads_are_not_seen, law_payloads_of_operands_are_not_seen,
};
use crate::engine::float::{self, Width};
use crate::engine::execution::{law_a_step_is_one_instruction, started};
use crate::engine::image::{Function, Image};
use crate::engine::machine::{Limits, Progress};
use crate::engine::numeric::{Kind, Shape, TrapView, applied, kind_of, popped, shape};
use crate::engine::operator::{BlockType, Operator};
use crate::engine::semantics::{
    FrameView, MachineView, Outcome, block_arity, load_shape, next_index, store_shape, unwound,
};
use crate::engine::weaving::{
    Ending, Weave, answer, ending, frame_twin, is_quiet, is_ready, kind_of_width,
    law_a_woven_module_starts_alike, lemma_begin, lemma_charge, lemma_fix, lemma_jumped_to,
    lemma_minted, lemma_on, lemma_new_top, lemma_operand, lemma_quiet_on, lemma_ready,
    lemma_rejumped, lemma_same_applied, mints, next_of, next_operator, operand_fixed, paid_for,
    passes_over, stands_for, twins, weaves, woven,
};
use crate::state::Value;
use vstd::prelude::*;

verus! {

/// Are values, one by one, the same or NaNs of one type?
pub open spec fn all_alike(s: Seq<Value>, t: Seq<Value>) -> bool {
    s.len() == t.len() && forall|i: int| 0 <= i < s.len() ==> alike(#[trigger] s[i], t[i])
}

/// Are globals alike, and those that hold floating-point numbers the same?
pub open spec fn globals_alike(
    widths: Seq<Option<FloatWidth>>,
    s: Seq<Value>,
    t: Seq<Value>,
) -> bool {
    all_alike(s, t) && forall|i: int|
        0 <= i < s.len() && i < widths.len() && widths[i] is Some ==> #[trigger] s[i] == t[i]
}

/// Are frames the same, with locals that are alike?
pub open spec fn frame_alike(f: FrameView, g: FrameView) -> bool {
    g == (FrameView { locals: g.locals, ..f }) && all_alike(f.locals, g.locals)
}

/// Are states the same but for the bits of NaNs on the stack and in locals? In memory and in the
/// globals of floating-point numbers there is no difference.
pub open spec fn states_alike(
    widths: Seq<Option<FloatWidth>>,
    a: MachineView,
    b: MachineView,
) -> bool {
    &&& b == (MachineView { stack: b.stack, frames: b.frames, globals: b.globals, ..a })
    &&& all_alike(a.stack, b.stack)
    &&& globals_alike(widths, a.globals, b.globals)
    &&& a.frames.len() == b.frames.len()
    &&& forall|k: int| 0 <= k < a.frames.len() ==> frame_alike(#[trigger] a.frames[k], b.frames[k])
}

/// Did two instructions end alike?
spec fn outcomes_alike(widths: Seq<Option<FloatWidth>>, c: Outcome, d: Outcome) -> bool {
    c.1 == d.1 && (c.1 is Ok ==> states_alike(widths, c.0, d.0))
}

proof fn lemma_popped(s: Seq<Value>, t: Seq<Value>, kind: Kind)
    requires
        all_alike(s, t),
    ensures
        all_alike(popped(s, kind).0, popped(t, kind).0),
        match (popped(s, kind).1, popped(t, kind).1) {
            (Ok(v), Ok(u)) => alike(v, u) && kind_of(v) == kind && kind_of(u) == kind && s.len() > 0
                && v == s.last() && u == t.last(),
            (Err(v), Err(u)) => v == u,
            _ => false,
        },
{
    if s.len() > 0 {
        assert(alike(s[s.len() - 1], t[s.len() - 1]));
    }
}

proof fn lemma_popped_i32(widths: Seq<Option<FloatWidth>>, a: MachineView, b: MachineView)
    requires
        states_alike(widths, a, b),
    ensures
        a.popped_i32().1 == b.popped_i32().1,
        states_alike(widths, a.popped_i32().0, b.popped_i32().0),
{
    lemma_popped(a.stack, b.stack, Kind::I32);
}

proof fn lemma_popped_any(widths: Seq<Option<FloatWidth>>, a: MachineView, b: MachineView)
    requires
        states_alike(widths, a, b),
    ensures
        match (a.popped_any().1, b.popped_any().1) {
            (Ok(v), Ok(u)) => alike(v, u),
            (Err(v), Err(u)) => v == u,
            _ => false,
        },
        states_alike(widths, a.popped_any().0, b.popped_any().0),
{
    if a.stack.len() > 0 {
        assert(alike(a.stack[a.stack.len() - 1], b.stack[a.stack.len() - 1]));
    }
}

proof fn lemma_with_top(
    widths: Seq<Option<FloatWidth>>,
    a: MachineView,
    b: MachineView,
    f: FrameView,
    g: FrameView,
)
    requires
        states_alike(widths, a, b),
        frame_alike(f, g),
        a.frames.len() > 0,
    ensures
        states_alike(widths, a.with_top(f), b.with_top(g)),
{
}

proof fn lemma_top(widths: Seq<Option<FloatWidth>>, a: MachineView, b: MachineView)
    requires
        states_alike(widths, a, b),
        a.frames.len() > 0,
    ensures
        frame_alike(a.top(), b.top()),
{
    assert(frame_alike(a.frames[a.frames.len() - 1], b.frames[a.frames.len() - 1]));
}

proof fn lemma_unwound(s: Seq<Value>, t: Seq<Value>, height: nat, keep: nat)
    requires
        all_alike(s, t),
        keep <= s.len(),
    ensures
        all_alike(unwound(s, height, keep), unwound(t, height, keep)),
{
    let (x, y) = (unwound(s, height, keep), unwound(t, height, keep));
    let rest = s.take(s.len() - keep);
    let base: int = if height < rest.len() {
        height as int
    } else {
        rest.len() as int
    };
    assert forall|i: int| 0 <= i < x.len() implies alike(#[trigger] x[i], y[i]) by {
        if i < base {
            assert(x[i] == s[i] && y[i] == t[i]);
        } else {
            let j = s.len() - keep + (i - base);
            assert(x[i] == s[j] && y[i] == t[j]);
        }
    }
}

proof fn lemma_left(widths: Seq<Option<FloatWidth>>, a: MachineView, b: MachineView)
    requires
        states_alike(widths, a, b),
    ensures
        outcomes_alike(widths, a.left(), b.left()),
{
    reveal(MachineView::left);
    if a.frames.len() > 0 {
        lemma_top(widths, a, b);
        let f = a.top();
        if a.stack.len() >= f.arity {
            lemma_unwound(a.stack, b.stack, f.stack_base as nat, f.arity as nat);
        }
    }
}

proof fn lemma_branched(widths: Seq<Option<FloatWidth>>, a: MachineView, b: MachineView, depth: u32)
    requires
        states_alike(widths, a, b),
    ensures
        outcomes_alike(widths, a.branched(depth), b.branched(depth)),
{
    reveal(MachineView::branched);
    if a.frames.len() > 0 {
        lemma_top(widths, a, b);
        lemma_left(widths, a, b);
        let (f, g) = (a.top(), b.top());
        let n = f.labels.len();
        if depth < n {
            let index = n - 1 - depth;
            let label = f.labels[index];
            if a.stack.len() >= label.arity {
                lemma_unwound(a.stack, b.stack, label.stack_height as nat, label.arity as nat);
                let kept = if label.is_loop {
                    index + 1
                } else {
                    index
                };
                let s = unwound(a.stack, label.stack_height as nat, label.arity as nat);
                let t = unwound(b.stack, label.stack_height as nat, label.arity as nat);
                lemma_with_top(
                    widths,
                    a.with_stack(s),
                    b.with_stack(t),
                    FrameView { labels: f.labels.take(kept), pc: label.branch_target, ..f },
                    FrameView { labels: g.labels.take(kept), pc: label.branch_target, ..g },
                );
            }
        }
    }
}

proof fn lemma_branching(
    widths: Seq<Option<FloatWidth>>,
    a: MachineView,
    b: MachineView,
    op: Operator,
)
    requires
        states_alike(widths, a, b),
    ensures
        outcomes_alike(widths, a.branching(op), b.branching(op)),
{
    reveal(MachineView::branching);
    lemma_left(widths, a, b);
    if a.frames.len() > 0 {
        lemma_top(widths, a, b);
        let (f, g) = (a.top(), b.top());
        lemma_with_top(
            widths,
            a,
            b,
            FrameView { labels: f.labels.drop_last(), ..f },
            FrameView { labels: g.labels.drop_last(), ..g },
        );
        lemma_with_top(
            widths,
            a,
            b,
            FrameView { pc: f.labels.last().end, ..f },
            FrameView { pc: g.labels.last().end, ..g },
        );
    }
    lemma_popped_i32(widths, a, b);
    let (m, n) = (a.popped_i32().0, b.popped_i32().0);
    match op {
        Operator::Br { relative_depth } => lemma_branched(widths, a, b, relative_depth),
        Operator::BrIf { relative_depth } => lemma_branched(widths, m, n, relative_depth),
        Operator::BrTable { targets, default } => if let Ok(index) = a.popped_i32().1 {
            lemma_branched(
                widths,
                m,
                n,
                if (index as u32) < targets@.len() {
                    targets@[(index as u32) as int]
                } else {
                    default
                },
            );
        },
        _ => {},
    }
}

proof fn lemma_block(
    widths: Seq<Option<FloatWidth>>,
    a: MachineView,
    b: MachineView,
    f: Function,
    pc: u32,
    ty: BlockType,
    is_loop: bool,
)
    requires
        states_alike(widths, a, b),
        a.frames.len() > 0,
    ensures
        outcomes_alike(widths, a.block(f, pc, ty, is_loop), b.block(f, pc, ty, is_loop)),
        outcomes_alike(widths, a.branch_if(f, pc, ty), b.branch_if(f, pc, ty)),
{
    reveal(MachineView::block);
    reveal(MachineView::branch_if);
    lemma_popped_i32(widths, a, b);
    lemma_top(widths, a, b);
    let (m, n) = (a.popped_i32().0, b.popped_i32().0);
    if pc < f.control@.len() && f.control@[pc as int] is Some {
        let control = f.control@[pc as int]->0;
        if let Some((params, results)) = block_arity(a.image, ty) {
            let (x, y) = (a.top(), b.top());
            let label = a.label_for(is_loop, pc, control.end, params, results);
            lemma_with_top(
                widths,
                a,
                b,
                FrameView { labels: x.labels.push(label), ..x },
                FrameView { labels: y.labels.push(label), ..y },
            );
            let label = m.label_for(false, pc, control.end, params, results);
            let (f1, g1) = (
                FrameView { labels: x.labels.push(label), ..x },
                FrameView { labels: y.labels.push(label), ..y },
            );
            lemma_with_top(widths, m, n, f1, g1);
            let (o, q) = (m.labelled(label), n.labelled(label));
            match control.otherwise {
                Some(at) => {
                    lemma_with_top(
                        widths,
                        o,
                        q,
                        FrameView { pc: next_index(at), ..f1 },
                        FrameView { pc: next_index(at), ..g1 },
                    );
                },
                None => {
                    let next = next_index(control.end);
                    lemma_with_top(
                        widths,
                        m,
                        n,
                        FrameView { pc: next, ..x },
                        FrameView { pc: next, ..y },
                    );
                },
            }
        }
    }
}

proof fn lemma_called(widths: Seq<Option<FloatWidth>>, a: MachineView, b: MachineView, index: u32)
    requires
        states_alike(widths, a, b),
    ensures
        outcomes_alike(widths, a.called(index), b.called(index)),
{
    reveal(MachineView::called);
    lemma_charged(widths, a, b);
    lemma_entered(widths, a, b, index);
    if index < a.image.host_imports@.len() {
        lemma_hosted(widths, a, b, index);
    }
}

proof fn lemma_charged(widths: Seq<Option<FloatWidth>>, a: MachineView, b: MachineView)
    requires
        states_alike(widths, a, b),
    ensures
        outcomes_alike(widths, a.charged(), b.charged()),
{
    reveal(MachineView::charged);
    lemma_popped_i32(widths, a, b);
}

proof fn lemma_hosted(widths: Seq<Option<FloatWidth>>, a: MachineView, b: MachineView, index: u32)
    requires
        states_alike(widths, a, b),
        index < a.image.host_imports@.len(),
    ensures
        outcomes_alike(
            widths,
            a.hosted(a.image.host_imports@[index as int]),
            b.hosted(a.image.host_imports@[index as int]),
        ),
{
    reveal(MachineView::hosted);
    lemma_popped_i32(widths, a, b);
    lemma_popped_i32(widths, a.popped_i32().0, b.popped_i32().0);
}

proof fn lemma_entered(widths: Seq<Option<FloatWidth>>, a: MachineView, b: MachineView, index: u32)
    requires
        states_alike(widths, a, b),
    ensures
        a.entered(index).1 == b.entered(index).1,
        a.entered(index).1 is Ok ==> states_alike(widths, a.entered(index).0, b.entered(index).0),
{
    reveal(MachineView::entered);
    if a.entered(index).1 is Ok {
        let (m, n) = (a.entered(index).0, b.entered(index).0);
        let k = a.frames.len() as int;
        assert(all_alike(m.frames[k].locals, n.frames[k].locals));
        assert(frame_alike(m.frames[k], n.frames[k]));
    }
}

proof fn lemma_called_indirect(
    widths: Seq<Option<FloatWidth>>,
    a: MachineView,
    b: MachineView,
    index: u32,
)
    requires
        states_alike(widths, a, b),
    ensures
        outcomes_alike(widths, a.called_indirect(index), b.called_indirect(index)),
{
    reveal(MachineView::called_indirect);
    lemma_popped_i32(widths, a, b);
    if let (m, Ok(slot)) = a.popped_i32() {
        let slot = slot as u32;
        if slot < m.table.len() {
            if let Some(target) = m.table[slot as int] {
                lemma_called(widths, m, b.popped_i32().0, target);
            }
        }
    }
}

proof fn lemma_selected(widths: Seq<Option<FloatWidth>>, a: MachineView, b: MachineView)
    requires
        states_alike(widths, a, b),
    ensures
        outcomes_alike(widths, a.selected(), b.selected()),
{
    reveal(MachineView::selected);
    lemma_popped_i32(widths, a, b);
    let (c, d) = (a.popped_i32().0, b.popped_i32().0);
    lemma_popped_any(widths, c, d);
    let (e, f) = (c.popped_any().0, d.popped_any().0);
    lemma_popped_any(widths, e, f);
}

/// Is what an instruction lets escape the same in two states?
spec fn escapes_alike(
    widths: Seq<Option<FloatWidth>>,
    op: Operator,
    s: Seq<Value>,
    t: Seq<Value>,
) -> bool {
    escaping(op, widths) is Some ==> s.len() > 0 && s.last() == t.last()
}

proof fn lemma_variable(
    widths: Seq<Option<FloatWidth>>,
    a: MachineView,
    b: MachineView,
    op: Operator,
)
    requires
        states_alike(widths, a, b),
        escapes_alike(widths, op, a.stack, b.stack),
    ensures
        outcomes_alike(widths, a.variable(op), b.variable(op)),
{
    reveal(MachineView::variable);
    lemma_popped_any(widths, a, b);
    if a.frames.len() > 0 {
        lemma_top(widths, a, b);
    }
    match op {
        Operator::LocalGet { local_index } => if a.frames.len() > 0 && local_index
            < a.top().locals.len() {
            assert(alike(a.top().locals[local_index as int], b.top().locals[local_index as int]));
        },
        Operator::LocalSet { local_index } => if let (m, Ok(v)) = a.popped_any() {
            lemma_local_set(
                widths,
                m,
                b.popped_any().0,
                local_index,
                v,
                b.popped_any().1->Ok_0,
            );
        },
        Operator::LocalTee { local_index } => if a.stack.len() > 0 {
            assert(alike(a.stack[a.stack.len() - 1], b.stack[a.stack.len() - 1]));
            lemma_local_set(widths, a, b, local_index, a.stack.last(), b.stack.last());
        },
        Operator::GlobalGet { global_index } => if global_index < a.globals.len() {
            assert(alike(a.globals[global_index as int], b.globals[global_index as int]));
        },
        _ => {},
    }
}

proof fn lemma_local_set(
    widths: Seq<Option<FloatWidth>>,
    a: MachineView,
    b: MachineView,
    index: u32,
    v: Value,
    u: Value,
)
    requires
        states_alike(widths, a, b),
        alike(v, u),
    ensures
        outcomes_alike(widths, a.local_set(index, v), b.local_set(index, u)),
{
    if a.frames.len() > 0 {
        lemma_top(widths, a, b);
        let (f, g) = (a.top(), b.top());
        if index < f.locals.len() {
            let (s, t) = (f.locals.update(index as int, v), g.locals.update(index as int, u));
            assert forall|i: int| 0 <= i < s.len() implies alike(#[trigger] s[i], t[i]) by {
                assert(alike(f.locals[i], g.locals[i]));
            }
            lemma_with_top(
                widths,
                a,
                b,
                FrameView { locals: s, ..f },
                FrameView { locals: t, ..g },
            );
        }
    }
}

proof fn lemma_bulk(widths: Seq<Option<FloatWidth>>, a: MachineView, b: MachineView, op: Operator)
    requires
        states_alike(widths, a, b),
    ensures
        outcomes_alike(widths, a.bulk(op), b.bulk(op)),
{
    reveal(MachineView::bulk);
    reveal(MachineView::initialised);
    lemma_popped_i32(widths, a, b);
    let (c, d) = (a.popped_i32().0, b.popped_i32().0);
    lemma_popped_i32(widths, c, d);
    lemma_popped_i32(widths, c.popped_i32().0, d.popped_i32().0);
}

proof fn lemma_load(
    widths: Seq<Option<FloatWidth>>,
    a: MachineView,
    b: MachineView,
    op: Operator,
    offset: u64,
    width: nat,
)
    requires
        states_alike(widths, a, b),
    ensures
        outcomes_alike(widths, a.load(op, offset, width), b.load(op, offset, width)),
{
    reveal(MachineView::load);
    lemma_popped_i32(widths, a, b);
}

proof fn lemma_store(
    widths: Seq<Option<FloatWidth>>,
    a: MachineView,
    b: MachineView,
    op: Operator,
    offset: u64,
    kind: Kind,
    width: nat,
)
    requires
        states_alike(widths, a, b),
        escapes_alike(widths, op, a.stack, b.stack),
        store_shape(op) == Some((offset, kind, width)),
    ensures
        outcomes_alike(widths, a.store(offset, kind, width), b.store(offset, kind, width)),
{
    reveal(MachineView::store);
    lemma_popped(a.stack, b.stack, kind);
    let (s, t) = (popped(a.stack, kind).0, popped(b.stack, kind).0);
    lemma_popped_i32(widths, a.with_stack(s), b.with_stack(t));
    if popped(a.stack, kind).1 is Ok {
        assert(a.stack.last() == b.stack.last());
    }
}

proof fn lemma_executed(
    widths: Seq<Option<FloatWidth>>,
    a: MachineView,
    b: MachineView,
    op: Operator,
    f: Function,
    pc: u32,
)
    requires
        states_alike(widths, a, b),
        a.frames.len() > 0,
        escapes_alike(widths, op, a.stack, b.stack),
    ensures
        outcomes_alike(widths, a.executed(op, f, pc), b.executed(op, f, pc)),
{
    reveal(MachineView::executed);
    match op {
        Operator::Block { blockty } => lemma_block(widths, a, b, f, pc, blockty, false),
        Operator::Loop { blockty } => lemma_block(widths, a, b, f, pc, blockty, true),
        Operator::If { blockty } => lemma_block(widths, a, b, f, pc, blockty, false),
        Operator::Else
        | Operator::End
        | Operator::Br { .. }
        | Operator::BrIf { .. }
        | Operator::BrTable { .. }
        | Operator::Return => lemma_branching(widths, a, b, op),
        Operator::Call { function_index } => lemma_called(widths, a, b, function_index),
        Operator::CallIndirect { type_index } => lemma_called_indirect(widths, a, b, type_index),
        Operator::Drop => lemma_popped_any(widths, a, b),
        Operator::Select | Operator::TypedSelect { .. } => lemma_selected(widths, a, b),
        Operator::LocalGet { .. }
        | Operator::LocalSet { .. }
        | Operator::LocalTee { .. }
        | Operator::GlobalGet { .. }
        | Operator::GlobalSet { .. } => lemma_variable(widths, a, b, op),
        Operator::MemorySize
        | Operator::MemoryGrow
        | Operator::MemoryFill
        | Operator::MemoryCopy
        | Operator::MemoryInit { .. }
        | Operator::DataDrop { .. }
        | Operator::ElemDrop { .. } => lemma_bulk(widths, a, b, op),
        _ => {
            if let Some((offset, width)) = load_shape(op) {
                lemma_load(widths, a, b, op, offset, width);
            }
            if let Some((offset, kind, width)) = store_shape(op) {
                lemma_store(widths, a, b, op, offset, kind, width);
            }
        },
    }
}

proof fn lemma_applied(widths: Seq<Option<FloatWidth>>, op: Operator, s: Seq<Value>, t: Seq<Value>)
    requires
        all_alike(s, t),
        escapes_alike(widths, op, s, t),
    ensures
        applied(op, s).1 == applied(op, t).1,
        applied(op, s).1 is Ok ==> all_alike(applied(op, s).0, applied(op, t).0),
{
    match shape(op) {
        Shape::Unary(kind) => {
            lemma_popped(s, t, kind);
            if let (Ok(v), Ok(u)) = (popped(s, kind).1, popped(t, kind).1) {
                if v != u {
                    assert(escaping(op, Seq::empty()) is None);
                    law_payloads_are_not_seen(op, v, u);
                }
            }
        },
        Shape::Binary(kind) => {
            lemma_popped(s, t, kind);
            let (x, y) = (popped(s, kind).0, popped(t, kind).0);
            lemma_popped(x, y, kind);
            if let (Ok(v), Ok(u)) = (popped(s, kind).1, popped(t, kind).1) {
                if let (Ok(c), Ok(d)) = (popped(x, kind).1, popped(y, kind).1) {
                    law_payloads_of_operands_are_not_seen(op, c, v, d, u);
                }
            }
        },
        _ => {},
    }
}

proof fn lemma_stepped(widths: Seq<Option<FloatWidth>>, a: MachineView, b: MachineView)
    requires
        states_alike(widths, a, b),
        next_operator(a) matches Some(op) ==> escapes_alike(widths, op, a.stack, b.stack),
    ensures
        outcomes_alike(widths, a.stepped(), b.stepped()),
        next_operator(a) == next_operator(b),
{
    if !a.finished && a.frames.len() > 0 {
        lemma_top(widths, a, b);
        if let Some(op) = next_operator(a) {
            let p = a.image.defined(a.top().function)->0;
            let f = a.image.functions@[p];
            let pc = a.top().pc;
            lemma_applied(widths, op, a.stack, b.stack);
            lemma_with_top(
                widths,
                a,
                b,
                FrameView { pc: next_index(pc), ..a.top() },
                FrameView { pc: next_index(pc), ..b.top() },
            );
            let (m, n) = (a.advanced(), b.advanced());
            assert(states_alike(widths, m, n));
            let (s, t) = (applied(op, a.stack).0, applied(op, b.stack).0);
            if applied(op, a.stack).1 is Ok {
                assert(states_alike(widths, m.with_stack(s), n.with_stack(t)));
            }
            if applied(op, a.stack).1 == Ok::<bool, TrapView>(false) {
                assert(s == a.stack && t == b.stack);
                lemma_executed(widths, m.with_stack(s), n.with_stack(t), op, f, pc);
            }
        }
    }
}

/// May an engine leave this value in the place of a NaN that the next instruction makes? Any NaN
/// of the same type.
pub open spec fn may_leave(m: MachineView, v: Value) -> bool {
    let (next, r) = m.stepped();
    &&& mints(m)
    &&& r is Ok
    &&& next.stack.len() > 0
    &&& is_nan_value(next.stack.last())
    &&& is_nan_value(v)
    &&& kind_of(v) == kind_of(next.stack.last())
}

/// One instruction of an engine that leaves this value where it may, and what the interpreter
/// leaves otherwise.
pub open spec fn stepped_with(m: MachineView, v: Value) -> Outcome {
    let (next, r) = m.stepped();
    if may_leave(m, v) {
        (next.with_stack(next.stack.drop_last().push(v)), r)
    } else {
        (next, r)
    }
}

/// The state of such an engine some number of instructions later, if execution gets that far.
/// What it leaves where it may choose is given for each instruction, the next one's at an index.
pub open spec fn after_with(
    choices: spec_fn(nat) -> Value,
    from: nat,
    m: MachineView,
    instructions: nat,
) -> Option<MachineView>
    decreases instructions,
{
    if instructions == 0 {
        Some(m)
    } else {
        match after_with(choices, from, m, (instructions - 1) as nat) {
            None => None,
            Some(c) => if c.finished {
                None
            } else {
                match stepped_with(c, choices((from + instructions - 1) as nat)) {
                    (next, Ok(_)) => Some(next),
                    (_, Err(_)) => None,
                }
            },
        }
    }
}

/// Does a run of such an engine end so, after some number of instructions?
pub open spec fn ends_with(
    choices: spec_fn(nat) -> Value,
    from: nat,
    m: MachineView,
    instructions: nat,
    e: Ending,
) -> bool {
    match after_with(choices, from, m, instructions) {
        Some(c) => ending(c, c.stepped()) == Some(e),
        None => false,
    }
}

/// Do two runs end in the same trap, or with the same output and memory? What is left on the stack
/// may differ in the bits of NaNs.
pub open spec fn endings_alike(widths: Seq<Option<FloatWidth>>, e: Ending, f: Ending) -> bool {
    match (e, f) {
        (Ending::Answered(x), Ending::Answered(y)) => {
            &&& x.output == y.output
            &&& x.output_digest == y.output_digest
            &&& x.memory == y.memory
            &&& globals_alike(widths, x.globals, y.globals)
            &&& all_alike(x.stack, y.stack)
        },
        (Ending::Trapped(s), Ending::Trapped(t)) => s == t,
        _ => false,
    }
}

proof fn lemma_with_on(
    choices: spec_fn(nat) -> Value,
    from: nat,
    m: MachineView,
    k: nat,
    j: nat,
)
    requires
        after_with(choices, from, m, k) is Some,
    ensures
        after_with(choices, from, m, k + j) == after_with(
            choices,
            from + k,
            after_with(choices, from, m, k)->0,
            j,
        ),
    decreases j,
{
    if j > 0 {
        lemma_with_on(choices, from, m, k, (j - 1) as nat);
        assert((k + j) - 1 == k + (j - 1));
        assert((from + (k + j) - 1) as nat == (from + k + j - 1) as nat);
    }
}

proof fn lemma_with_gone(
    choices: spec_fn(nat) -> Value,
    from: nat,
    m: MachineView,
    j: nat,
    k: nat,
)
    requires
        after_with(choices, from, m, j) is None,
        j <= k,
    ensures
        after_with(choices, from, m, k) is None,
    decreases k,
{
    if j < k {
        lemma_with_gone(choices, from, m, j, (k - 1) as nat);
    }
}

/// Where there is nothing to choose, all engines do the same.
proof fn lemma_quiet(choices: spec_fn(nat) -> Value, from: nat, m: MachineView, k: nat)
    requires
        is_quiet(m, k),
    ensures
        after_with(choices, from, m, k) == m.after(k),
    decreases k,
{
    if k > 0 {
        lemma_quiet(choices, from, m, (k - 1) as nat);
    }
}

/// Does such an engine stop with a trap after some number of instructions?
spec fn stops_with(
    choices: spec_fn(nat) -> Value,
    from: nat,
    m: MachineView,
    instructions: nat,
    t: TrapView,
) -> bool {
    match after_with(choices, from, m, instructions) {
        Some(c) => !c.finished && c.stepped().1 == Err::<Progress, TrapView>(t),
        None => false,
    }
}

/// Does such an engine, in so many instructions, get where another one gets with one?
spec fn leads_with(
    w: Seq<Weave>,
    o: Outcome,
    paid: bool,
    choices: spec_fn(nat) -> Value,
    from: nat,
    b: MachineView,
    k: nat,
) -> bool {
    match o {
        (_, Err(t)) => stops_with(choices, from, b, k, t),
        (a, Ok(_)) => k > 0 && (match after_with(choices, from, b, k) {
            Some(c) => twins(w, a, paid, c),
            None => false,
        }),
    }
}

/// What is left of an instruction of a plain module: what was chosen, unless it is fixed.
spec fn left_with(weave: Weave, i: int, m: MachineView, v: Value) -> Outcome {
    if weave.after[i] is Some {
        m.stepped()
    } else {
        stepped_with(m, v)
    }
}

proof fn lemma_ready_with(
    w: Seq<Weave>,
    a: MachineView,
    b: MachineView,
    choices: spec_fn(nat) -> Value,
    from: nat,
) -> (k: nat)
    requires
        is_ready(w, a, b),
    ensures
        next_of(w, a) matches Some((weave, i)) ==> leads_with(
            w,
            left_with(weave, i, a, choices(from)),
            passes_over(w, a),
            choices,
            from,
            b,
            k,
        ),
{
    let p = a.image.defined(a.top().function)->0;
    let (f, g) = (a.image.functions@[p], b.image.functions@[p]);
    let i = a.top().pc;
    let wp = w[p];
    let (q, at) = (wp.paid(i as int) as u32, wp.moved(i as int));
    let b0 = b.jumped(q);
    let n = a.frames.len() - 1;
    assert(frame_twin(w, a.image, a.frames[n], b0.frames[n], true));
    assert(b0.frames[n] == (FrameView { pc: q, ..b.top() }));
    assert(woven(a.image.charge, wp, f, g));
    assert(wp.len() == f.ops@.len() && g.ops@.len() == wp.begin(wp.len() as int) && g.ops@.len()
        < u32::MAX) by {
        reveal(woven);
    }
    assert(stands_for(a.image.charge, wp, f, g, i as int)) by {
        reveal(woven);
    }
    lemma_begin(wp, i as int, wp.len() as int);
    let (op, other) = (f.ops@[i as int], g.ops@[at]);
    lemma_same_applied(op, other, a.stack);
    assert(next_operator(a) == Some(op));
    assert(next_operator(b) == Some(other));
    assert(mints(a) == mints(b));
    let v = choices(from);
    assert(after_with(choices, from, b, 0) == Some(b));
    match wp.after[i as int] {
        None => {
            let k = lemma_ready(w, a, b);
            match a.stepped() {
                (_, Err(_)) => 0,
                (c, Ok(_)) => {
                    let d = b.stepped().0;
                    assert(b.after(1) == Some(d)) by {
                        reveal_with_fuel(MachineView::after, 2);
                    }
                    assert(b.stepped().1 is Ok) by {
                        reveal_with_fuel(MachineView::after, 2);
                    }
                    assert(twins(w, c, passes_over(w, a), d));
                    assert(may_leave(a, v) == may_leave(b, v));
                    let stack = stepped_with(a, v).0.stack;
                    assert(twins(w, c.with_stack(stack), passes_over(w, a), d.with_stack(stack)));
                    assert(after_with(choices, from, b, 1) == Some(stepped_with(b, v).0)) by {
                        reveal_with_fuel(after_with, 2);
                    }
                    1
                },
            }
        },
        Some(width) => lemma_ready_fixed(w, a, b, choices, from, width),
    }
}

proof fn lemma_chosen_is_fixed(width: FloatWidth, v: Value, u: Value)
    requires
        kind_of(v) == kind_of_width(width),
        fixed(width, v) == v,
        u == v || (is_nan_value(v) && is_nan_value(u) && kind_of(u) == kind_of(v)),
    ensures
        fixed(width, u) == v,
        kind_of(u) == kind_of_width(width),
{
    law_fixing_changes_only_nans(width, u);
    law_fixing_changes_only_nans(width, v);
    if u != v {
        match (u, v) {
            (Value::F32(x), Value::F32(y)) => {
                float::law_only_nan_is_unequal_to_itself(Width::Single, x as u64);
                float::law_only_nan_is_unequal_to_itself(Width::Single, y as u64);
            },
            (Value::F64(x), Value::F64(y)) => {
                float::law_only_nan_is_unequal_to_itself(Width::Double, x);
                float::law_only_nan_is_unequal_to_itself(Width::Double, y);
            },
            _ => {},
        }
    }
}

/// A result that is fixed is the same, whatever was chosen.
proof fn lemma_ready_fixed(
    w: Seq<Weave>,
    a: MachineView,
    b: MachineView,
    choices: spec_fn(nat) -> Value,
    from: nat,
    width: FloatWidth,
) -> (k: nat)
    requires
        is_ready(w, a, b),
        next_of(w, a) matches Some((weave, i)) && weave.after[i] == Some(width),
    ensures
        leads_with(w, a.stepped(), passes_over(w, a), choices, from, b, k),
{
    let p = a.image.defined(a.top().function)->0;
    let (f, g) = (a.image.functions@[p], b.image.functions@[p]);
    let i = a.top().pc;
    let wp = w[p];
    let (q, at) = (wp.paid(i as int) as u32, wp.moved(i as int));
    let b0 = b.jumped(q);
    let n = a.frames.len() - 1;
    assert(frame_twin(w, a.image, a.frames[n], b0.frames[n], true));
    assert(b0.frames[n] == (FrameView { pc: q, ..b.top() }));
    assert(woven(a.image.charge, wp, f, g));
    assert(wp.len() == f.ops@.len() && g.ops@.len() == wp.begin(wp.len() as int) && g.ops@.len()
        < u32::MAX && g.control@.len() == g.ops@.len()) by {
        reveal(woven);
    }
    assert(stands_for(a.image.charge, wp, f, g, i as int)) by {
        reveal(woven);
    }
    lemma_begin(wp, 0, wp.len() as int);
    lemma_begin(wp, i as int, wp.len() as int);
    let (op, other) = (f.ops@[i as int], g.ops@[at]);
    lemma_same_applied(op, other, a.stack);
    lemma_minted(op, width, a.stack);
    let (stack, handled) = applied(op, a.stack);
    let next = wp.begin(i + 1) as u32;
    lemma_jumped_to(w, a, true, b0, next_index(i), false, next);
    lemma_rejumped(b, q, next);
    assert(after_with(choices, from, b, 0) == Some(b));
    if handled is Err {
        0
    } else {
        let c = a.advanced();
        let v = choices(from);
        let u = if may_leave(b, v) {
            v
        } else {
            stack.last()
        };
        assert(b.stepped() == (
            b.advanced().with_stack(stack),
            Ok::<Progress, TrapView>(Progress::Continued),
        ));
        let rest = stack.drop_last();
        assert(rest.push(stack.last()) =~= stack);
        let y = b.advanced().with_stack(rest.push(u));
        assert(stepped_with(b, v).0 == y);
        assert(after_with(choices, from, b, 1) == Some(y)) by {
            reveal_with_fuel(after_with, 2);
        }
        lemma_chosen_is_fixed(width, stack.last(), u);
        assert(rest.push(u).drop_last() =~= rest);
        let scratch = wp.scratch(width);
        let j = lemma_fix(y, g, width, scratch, at + 1);
        lemma_quiet(choices, from + 1, y, j);
        lemma_with_on(choices, from, b, 1, j);
        let e = y.after(j)->0;
        let x = c.with_stack(stack);
        let top = FrameView {
            pc: next,
            locals: b.top().locals.update(scratch as int, u),
            ..b.top()
        };
        assert(top.locals.take(wp.locals as int) =~= b.top().locals.take(wp.locals as int));
        let b1 = b.jumped(next);
        assert(twins(w, x, false, b1.with_stack(stack))) by {
            assert(c.frames == a.jumped(next_index(i)).frames);
        }
        lemma_new_top(
            w,
            x,
            false,
            b1.with_stack(stack),
            FrameView { pc: next_index(i), ..a.top() },
            false,
            top,
        );
        assert(x.frames.drop_last().push(FrameView { pc: next_index(i), ..a.top() }) =~= x.frames);
        assert(e.frames =~= b1.frames.drop_last().push(top));
        assert(twins(w, x, false, e));
        1 + j
    }
}

/// What a plain module does when each instruction is paid for first, its operand is fixed, and
/// what it leaves is chosen.
spec fn guarded_with(w: Seq<Weave>, m: MachineView, paid: bool, v: Value) -> Outcome {
    match next_of(w, m) {
        None => m.stepped(),
        Some((weave, i)) => match paid_for(weave, i, paid, m.meter) {
            None => (m, Err(TrapView::OutOfFuel)),
            Some(meter) => match operand_fixed(weave.before[i], m.stack) {
                Err(t) => (m, Err(t)),
                Ok(stack) => left_with(weave, i, MachineView { meter, stack, ..m }, v),
            },
        },
    }
}

/// One such instruction, and what stands for it.
proof fn lemma_guarded_with(
    w: Seq<Weave>,
    a: MachineView,
    paid: bool,
    b: MachineView,
    choices: spec_fn(nat) -> Value,
    from: nat,
) -> (r: (nat, Value))
    requires
        twins(w, a, paid, b),
        !a.finished,
    ensures
        leads_with(
            w,
            guarded_with(w, a, paid, r.1),
            passes_over(w, a),
            choices,
            from,
            b,
            r.0,
        ),
{
    let none = choices(from);
    assert(after_with(choices, from, b, 0) == Some(b));
    match next_of(w, a) {
        None => {
            if a.frames.len() > 0 {
                let n = a.frames.len() - 1;
                assert(frame_twin(w, a.image, a.frames[n], b.frames[n], paid));
                let p = a.image.defined(a.top().function)->0;
                assert(woven(
                    a.image.charge,
                    w[p],
                    a.image.functions@[p],
                    b.image.functions@[p],
                ));
                reveal(woven);
            }
            (0, none)
        },
        Some((weave, i)) => {
            let k = if paid {
                0
            } else {
                lemma_charge(w, a, b)
            };
            assert(is_quiet(b, k));
            lemma_quiet(choices, from, b, k);
            match paid_for(weave, i, paid, a.meter) {
                None => (k, none),
                Some(meter) => {
                    let c = MachineView { meter, ..a };
                    let d = b.after(k)->0;
                    assert(twins(w, c, true, d)) by {
                        if paid {
                            assert(c == a);
                        }
                    }
                    let j = lemma_operand(w, c, d);
                    lemma_on(b, k, j);
                    lemma_quiet_on(b, k, j);
                    lemma_quiet(choices, from, b, k + j);
                    match operand_fixed(weave.before[i], a.stack) {
                        Err(_) => (k + j, none),
                        Ok(stack) => {
                            let e = d.after(j)->0;
                            let x = c.with_stack(stack);
                            let at = from + (k + j);
                            let h = lemma_ready_with(w, x, e, choices, at);
                            lemma_with_on(choices, from, b, k + j, h);
                            assert(x == (MachineView { meter, stack, ..a }));
                            (k + j + h, choices(at))
                        },
                    }
                },
            }
        },
    }
}

/// Is every operand fixed through which a NaN can escape?
pub open spec fn guards_escapes(
    w: Seq<Weave>,
    widths: Seq<Option<FloatWidth>>,
    plain: Image,
) -> bool {
    forall|p: int, i: int|
        0 <= p < w.len() && 0 <= i < w[p].len() ==> (#[trigger] w[p].before[i]) == escaping(
            plain.functions@[p].ops@[i],
            widths,
        )
}

proof fn lemma_fixed_alike(width: FloatWidth, v: Value, u: Value)
    requires
        alike(v, u),
        kind_of(v) == kind_of_width(width),
    ensures
        fixed(width, v) == fixed(width, u),
{
    match (v, u) {
        (Value::F32(x), Value::F32(y)) => {
            float::law_only_nan_is_unequal_to_itself(Width::Single, x as u64);
            float::law_only_nan_is_unequal_to_itself(Width::Single, y as u64);
        },
        (Value::F64(x), Value::F64(y)) => {
            float::law_only_nan_is_unequal_to_itself(Width::Double, x);
            float::law_only_nan_is_unequal_to_itself(Width::Double, y);
        },
        _ => {},
    }
}

proof fn lemma_stepped_with(
    widths: Seq<Option<FloatWidth>>,
    a: MachineView,
    b: MachineView,
    v: Value,
    u: Value,
)
    requires
        states_alike(widths, a, b),
        next_operator(a) matches Some(op) ==> escapes_alike(widths, op, a.stack, b.stack),
    ensures
        outcomes_alike(widths, stepped_with(a, v), stepped_with(b, u)),
{
    lemma_stepped(widths, a, b);
    if a.stepped().1 is Ok {
        let (s, t) = (a.stepped().0.stack, b.stepped().0.stack);
        if s.len() > 0 {
            assert(alike(s[s.len() - 1], t[s.len() - 1]));
            let (x, y) = (stepped_with(a, v).0.stack, stepped_with(b, u).0.stack);
            assert forall|i: int| 0 <= i < x.len() implies alike(#[trigger] x[i], y[i]) by {
                assert(alike(s[i], t[i]));
            }
        }
    }
}

/// Two such instructions in states that are alike end alike.
proof fn lemma_guarded_alike(
    w: Seq<Weave>,
    widths: Seq<Option<FloatWidth>>,
    a: MachineView,
    b: MachineView,
    paid: bool,
    c: MachineView,
    v: Value,
    u: Value,
)
    requires
        states_alike(widths, a, b),
        twins(w, a, paid, c),
        guards_escapes(w, widths, a.image),
        !a.finished,
    ensures
        outcomes_alike(widths, guarded_with(w, a, paid, v), guarded_with(w, b, paid, u)),
        passes_over(w, a) == passes_over(w, b),
        guarded_with(w, a, paid, v).0.image == a.image,
{
    law_a_step_is_one_instruction(a);
    if a.frames.len() > 0 {
        lemma_top(widths, a, b);
        let n = a.frames.len() - 1;
        assert(frame_twin(w, a.image, a.frames[n], c.frames[n], paid));
        let p = a.image.defined(a.top().function)->0;
        assert(woven(a.image.charge, w[p], a.image.functions@[p], c.image.functions@[p]));
        assert(w[p].len() == a.image.functions@[p].ops@.len()) by {
            reveal(woven);
        }
        if let Some((weave, i)) = next_of(w, a) {
            let op = a.image.functions@[p].ops@[i];
            assert(weave.before[i] == escaping(op, widths));
            if let Some(meter) = paid_for(weave, i, paid, a.meter) {
                if let Some(width) = weave.before[i] {
                    let kind = kind_of_width(width);
                    lemma_popped(a.stack, b.stack, kind);
                    if popped(a.stack, kind).1 is Ok {
                        lemma_fixed_alike(width, a.stack.last(), b.stack.last());
                    }
                }
                if let Ok(s) = operand_fixed(weave.before[i], a.stack) {
                    let t = operand_fixed(weave.before[i], b.stack)->Ok_0;
                    assert(all_alike(s, t));
                    let (x, y) = (
                        MachineView { meter, stack: s, ..a },
                        MachineView { meter, stack: t, ..b },
                    );
                    assert(states_alike(widths, x, y));
                    assert(next_operator(x) == Some(op));
                    law_a_step_is_one_instruction(x);
                    lemma_stepped(widths, x, y);
                    lemma_stepped_with(widths, x, y, v, u);
                }
            }
        } else {
            lemma_stepped(widths, a, b);
        }
    } else {
        lemma_stepped(widths, a, b);
    }
}

proof fn lemma_run_alike(
    w: Seq<Weave>,
    widths: Seq<Option<FloatWidth>>,
    a: MachineView,
    b: MachineView,
    paid: bool,
    c: MachineView,
    d: MachineView,
    one: spec_fn(nat) -> Value,
    from: nat,
    other: spec_fn(nat) -> Value,
    at: nat,
    n: nat,
    e: Ending,
) -> (r: (nat, Ending))
    requires
        states_alike(widths, a, b),
        twins(w, a, paid, c),
        twins(w, b, paid, d),
        guards_escapes(w, widths, a.image),
        ends_with(one, from, c, n, e),
    ensures
        ends_with(other, at, d, r.0, r.1),
        endings_alike(widths, e, r.1),
    decreases n,
{
    let last = after_with(one, from, c, n)->0;
    assert(after_with(one, from, c, n + 1) is None);
    assert(after_with(one, from, c, 0) == Some(c));
    assert(after_with(other, at, d, 0) == Some(d));
    if a.finished {
        if n > 0 {
            assert(after_with(one, from, c, 1) is None) by {
                reveal_with_fuel(after_with, 2);
            }
            lemma_with_gone(one, from, c, 1, n);
        }
        (0, Ending::Answered(answer(d)))
    } else {
        let (j, v) = lemma_guarded_with(w, a, paid, c, one, from);
        let (k, u) = lemma_guarded_with(w, b, paid, d, other, at);
        lemma_guarded_alike(w, widths, a, b, paid, c, v, u);
        if n < j {
            lemma_with_gone(one, from, c, n + 1, j);
        }
        match guarded_with(w, a, paid, v) {
            (_, Err(t)) => {
                assert(after_with(one, from, c, j + 1) is None);
                if j < n {
                    lemma_with_gone(one, from, c, j + 1, n);
                }
                (k, Ending::Trapped(t))
            },
            (next, Ok(_)) => {
                let rest = (n - j) as nat;
                lemma_with_on(one, from, c, j, rest);
                let x = guarded_with(w, b, paid, u).0;
                let (m, f) = lemma_run_alike(
                    w,
                    widths,
                    next,
                    x,
                    passes_over(w, a),
                    after_with(one, from, c, j)->0,
                    after_with(other, at, d, k)->0,
                    one,
                    from + j,
                    other,
                    at + k,
                    rest,
                    e,
                );
                lemma_with_on(other, at, d, k, m);
                (k + m, f)
            },
        }
    }
}

/// A NaN's payload cannot change an answer. Where operands are fixed before they can escape, it
/// makes no difference which NaNs an engine leaves: on every input where a run with some choices
/// ends, so does one with any other, in the same trap, or with the same output, the same memory
/// and the same globals of floating-point numbers.
pub proof fn law_payloads_do_not_change_the_answer(
    w: Seq<Weave>,
    widths: Seq<Option<FloatWidth>>,
    plain: Image,
    image: Image,
    input: Seq<u8>,
    limits: Limits,
    one: spec_fn(nat) -> Value,
    other: spec_fn(nat) -> Value,
    instructions: nat,
    e: Ending,
) -> (r: (nat, Ending))
    requires
        weaves(w, plain, image),
        guards_escapes(w, widths, plain),
        started(image, input, limits) is Ok,
        ends_with(one, 0, started(image, input, limits)->Ok_0, instructions, e),
    ensures
        ends_with(other, 0, started(image, input, limits)->Ok_0, r.0, r.1),
        endings_alike(widths, e, r.1),
{
    law_a_woven_module_starts_alike(w, plain, image, input, limits);
    let a = started(plain, input, limits)->Ok_0;
    let c = started(image, input, limits)->Ok_0;
    assert(a.image == plain) by {
        reveal(MachineView::entered);
    }
    lemma_run_alike(w, widths, a, a, false, c, c, one, 0, other, 0, instructions, e)
}

/// The interpreter is an engine that leaves canonical NaNs.
pub proof fn law_the_interpreter_is_such_an_engine(
    choices: spec_fn(nat) -> Value,
    m: MachineView,
    instructions: nat,
)
    requires
        forall|n: nat| !is_nan_value(#[trigger] choices(n)),
    ensures
        after_with(choices, 0, m, instructions) == m.after(instructions),
    decreases instructions,
{
    if instructions > 0 {
        law_the_interpreter_is_such_an_engine(choices, m, (instructions - 1) as nat);
    }
}

} // verus!
