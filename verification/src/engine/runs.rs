//! Runs of instructions, and what the interpreter does with them.
//!
//! A run is charged for where it starts. That is sound because the interpreter enters a run only
//! there and executes it to its end, and exact because it leaves one nowhere else: of every
//! execution, the fuel consumed is the number of instructions executed. The one exception is the
//! `end` that an `else` goes to, which is reached from within another run and is not charged.
use crate::canon::{Config, charged_at, is_boundary, run_length, starts_run};
use crate::engine::execution::{law_a_step_is_one_instruction, started};
use crate::engine::image::{Function, Image, annotates, bracket, law_constructs_nest, resolved};
use crate::engine::machine::{Limits, Progress};
use crate::engine::numeric::{TrapView, applied, shape};
use crate::engine::operator::Operator;
use crate::engine::semantics::{
    FrameView, MachineView, Outcome, block_arity, load_shape, next_index, store_shape,
};
use crate::engine::weaving::{
    Ending, Weave, ends, frame_twin, guarded, guarded_after, guarded_ends,
    law_a_woven_module_does_nothing_else, law_a_woven_module_starts_alike, lemma_guarded,
    lemma_refuelled_stepped, next_of, operand_fixed, paid_for, passes_over, refuelled, stands_for,
    twins, weaves, woven,
};
use crate::engine::witness::LabelWitness;
use crate::state::Value;
use vstd::prelude::*;

verus! {

/// The instructions of the function that a frame executes.
pub open spec fn code_of(image: Image, f: FrameView) -> Seq<Operator> {
    image.functions@[image.defined(f.function)->0].ops@
}

/// Is a function as it is decoded: each construct annotated with where it ends, and short enough
/// to be pointed into?
pub open spec fn is_resolved(f: Function) -> bool {
    resolved(f.ops@) == Some(f.control@) && f.ops@.len() < u32::MAX
}

/// Are all functions of a module as they are decoded?
pub open spec fn all_resolved(image: Image) -> bool {
    forall|p: int| 0 <= p < image.functions@.len() ==> is_resolved(#[trigger] image.functions@[p])
}

/// Does a label lead where one may: behind an `end` or behind the `loop` that a loop starts with,
/// with an `end` of its own?
pub open spec fn leads_on(ops: Seq<Operator>, l: LabelWitness) -> bool {
    &&& l.end < ops.len()
    &&& ops[l.end as int] is End
    &&& 0 < l.branch_target <= ops.len()
    &&& ops[l.branch_target - 1] is End || ops[l.branch_target - 1] is Loop
}

/// Do all labels of a frame lead where they may?
pub open spec fn frame_leads_on(image: Image, f: FrameView) -> bool {
    &&& image.defined(f.function) is Some
    &&& forall|j: int|
        0 <= j < f.labels.len() ==> leads_on(code_of(image, f), #[trigger] f.labels[j])
}

/// Do all labels of a call stack lead where they may?
pub open spec fn frames_lead_on(image: Image, frames: Seq<FrameView>) -> bool {
    forall|k: int| 0 <= k < frames.len() ==> frame_leads_on(image, #[trigger] frames[k])
}

/// Are two call stacks the same, but for the locals of the last frame?
spec fn same_places(f: Seq<FrameView>, g: Seq<FrameView>) -> bool {
    &&& f.len() == g.len()
    &&& forall|k: int| 0 <= k < f.len() - 1 ==> #[trigger] f[k] == g[k]
    &&& f.len() > 0 ==> g.last() == (FrameView { locals: g.last().locals, ..f.last() })
}

/// Did an instruction leave the call stack as it was, but for locals?
spec fn stays(m: MachineView, o: Outcome) -> bool {
    o.1 is Ok ==> same_places(m.frames, o.0.frames) && o.0.finished == m.finished
}

/// Did an instruction take one frame off the call stack?
spec fn gives_back(m: MachineView, o: Outcome) -> bool {
    o.1 is Ok ==> m.frames.len() > 0 && o.0.frames == m.frames.drop_last() && (o.0.finished
        <==> m.finished || m.frames.len() == 1)
}

/// Did an instruction change only the last frame: its counter and its labels, of which it dropped
/// some?
spec fn turns(m: MachineView, o: Outcome, pc: u32, kept: int) -> bool {
    &&& m.frames.len() > 0
    &&& 0 <= kept <= m.top().labels.len()
    &&& o.0.frames == m.frames.drop_last().push(
        FrameView { pc, labels: m.top().labels.take(kept), ..m.top() },
    )
    &&& o.0.finished == m.finished
}

proof fn lemma_plain_stays(m: MachineView, op: Operator)
    ensures
        stays(m, m.selected()),
        stays(m, m.variable(op)),
        stays(m, m.bulk(op)),
        stays(m, m.charged()),
{
    reveal(MachineView::selected);
    reveal(MachineView::variable);
    reveal(MachineView::bulk);
    reveal(MachineView::initialised);
    reveal(MachineView::charged);
}

proof fn lemma_access_stays(m: MachineView, op: Operator)
    ensures
        load_shape(op) matches Some((offset, width)) ==> stays(m, m.load(op, offset, width)),
        store_shape(op) matches Some((offset, kind, width)) ==> stays(
            m,
            m.store(offset, kind, width),
        ),
{
    reveal(MachineView::load);
    reveal(MachineView::store);
}

/// Did a call enter a function behind the frame that made it?
spec fn enters(m: MachineView, o: Outcome) -> bool {
    &&& o.0.frames.len() == m.frames.len() + 1
    &&& o.0.frames.drop_last() == m.frames
    &&& o.0.top().pc == 0
    &&& o.0.top().labels.len() == 0
    &&& m.image.defined(o.0.top().function) is Some
    &&& o.0.finished == m.finished
}

proof fn lemma_called(m: MachineView, index: u32)
    ensures
        m.called(index).1 is Ok ==> stays(m, m.called(index)) || enters(m, m.called(index)),
{
    reveal(MachineView::called);
    reveal(MachineView::hosted);
    reveal(MachineView::entered);
    lemma_plain_stays(m, Operator::Nop);
    if m.called(index).1 is Ok && index != m.image.charge && index
        >= m.image.host_imports@.len() {
        assert(m.called(index).0.frames.drop_last() =~= m.frames);
    }
}

proof fn lemma_called_indirect(m: MachineView, index: u32)
    ensures
        m.called_indirect(index).1 is Ok ==> stays(m, m.called_indirect(index)) || enters(
            m,
            m.called_indirect(index),
        ),
{
    reveal(MachineView::called_indirect);
    if let (n, Ok(slot)) = m.popped_i32() {
        let slot = slot as u32;
        if slot < n.table.len() {
            if let Some(target) = n.table[slot as int] {
                lemma_called(n, target);
            }
        }
    }
}

proof fn lemma_branched(m: MachineView, depth: u32)
    requires
        m.frames.len() > 0,
    ensures
        m.branched(depth).1 is Ok ==> gives_back(m, m.branched(depth)) || (depth < m.top().labels.len()
            && ({
            let index = m.top().labels.len() - 1 - depth;
            let label = m.top().labels[index];
            turns(
                m,
                m.branched(depth),
                label.branch_target,
                if label.is_loop {
                    index + 1
                } else {
                    index
                },
            )
        })),
        gives_back(m, m.left()),
{
    reveal(MachineView::branched);
    reveal(MachineView::left);
}

/// Does the last frame of a call stack stand at an instruction, past some instructions that leave
/// the ones below it alone?
spec fn advances(m: MachineView, o: Outcome, pc: u32) -> bool {
    &&& m.frames.len() > 0
    &&& o.0.frames.len() == m.frames.len()
    &&& o.0.frames.drop_last() == m.frames.drop_last()
    &&& o.0.top().pc == pc
    &&& o.0.top().function == m.top().function
    &&& frames_lead_on(m.image, o.0.frames)
    &&& o.0.finished == m.finished
}

proof fn lemma_top_leads_on(m: MachineView, f: FrameView)
    requires
        frames_lead_on(m.image, m.frames),
        m.frames.len() > 0,
        frame_leads_on(m.image, f),
    ensures
        frames_lead_on(m.image, m.frames.drop_last().push(f)),
        frames_lead_on(m.image, m.frames.drop_last()),
{
    let frames = m.frames.drop_last().push(f);
    assert forall|k: int| 0 <= k < frames.len() implies frame_leads_on(
        m.image,
        #[trigger] frames[k],
    ) by {
        if k < m.frames.len() - 1 {
            assert(frames[k] == m.frames[k]);
        }
    }
    assert forall|k: int| 0 <= k < m.frames.len() - 1 implies frame_leads_on(
        m.image,
        #[trigger] m.frames.drop_last()[k],
    ) by {
        assert(m.frames.drop_last()[k] == m.frames[k]);
    }
}

proof fn lemma_stays_advances(m: MachineView, o: Outcome)
    requires
        stays(m, o),
        o.1 is Ok,
        m.frames.len() > 0,
        frames_lead_on(m.image, m.frames),
    ensures
        advances(m, o, m.top().pc),
{
    let n = m.frames.len() - 1;
    assert(frame_leads_on(m.image, m.frames[n]));
    assert forall|j: int| 0 <= j < o.0.top().labels.len() implies leads_on(
        code_of(m.image, o.0.top()),
        #[trigger] o.0.top().labels[j],
    ) by {
        assert(leads_on(code_of(m.image, m.top()), m.top().labels[j]));
    }
    assert(o.0.frames.drop_last() =~= m.frames.drop_last());
    assert(o.0.frames =~= m.frames.drop_last().push(o.0.top()));
    lemma_top_leads_on(m, o.0.top());
}

proof fn lemma_turns_advances(m: MachineView, o: Outcome, pc: u32, kept: int)
    requires
        turns(m, o, pc, kept),
        frames_lead_on(m.image, m.frames),
    ensures
        advances(m, o, pc),
{
    let n = m.frames.len() - 1;
    assert(frame_leads_on(m.image, m.frames[n]));
    let f = FrameView { pc, labels: m.top().labels.take(kept), ..m.top() };
    assert forall|j: int| 0 <= j < f.labels.len() implies leads_on(
        code_of(m.image, f),
        #[trigger] f.labels[j],
    ) by {
        assert(leads_on(code_of(m.image, m.top()), m.top().labels[j]));
    }
    lemma_top_leads_on(m, f);
    assert(o.0.frames.drop_last() =~= m.frames.drop_last());
}

/// The label of a construct leads where it may.
proof fn lemma_label(m: MachineView, f: Function, at: u32, is_loop: bool, params: u32, results: u32)
    requires
        is_resolved(f),
        at < f.ops@.len(),
        f.control@[at as int] is Some,
        is_loop ==> f.ops@[at as int] is Loop,
    ensures
        leads_on(
            f.ops@,
            m.label_for(is_loop, at, f.control@[at as int]->0.end, params, results),
        ),
        f.control@[at as int]->0.otherwise matches Some(x) ==> x < f.ops@.len()
            && f.ops@[x as int] is Else,
        f.control@[at as int]->0.end < f.ops@.len(),
        f.ops@[f.control@[at as int]->0.end as int] is End,
{
    law_constructs_nest(f.ops@, at as int, at as int);
    let c = f.control@[at as int]->0;
    assert(annotates(f.ops@, at as int, c));
}

proof fn lemma_labelled(m: MachineView, l: LabelWitness)
    requires
        m.frames.len() > 0,
        frames_lead_on(m.image, m.frames),
        leads_on(code_of(m.image, m.top()), l),
    ensures
        frames_lead_on(m.image, m.labelled(l).frames),
        m.labelled(l).frames.drop_last() == m.frames.drop_last(),
{
    let n = m.frames.len() - 1;
    assert(frame_leads_on(m.image, m.frames[n]));
    let f = FrameView { labels: m.top().labels.push(l), ..m.top() };
    assert forall|j: int| 0 <= j < f.labels.len() implies leads_on(
        code_of(m.image, f),
        #[trigger] f.labels[j],
    ) by {
        if j < m.top().labels.len() {
            assert(leads_on(code_of(m.image, m.top()), m.top().labels[j]));
        }
    }
    lemma_top_leads_on(m, f);
    assert(m.labelled(l).frames.drop_last() =~= m.frames.drop_last());
}

proof fn lemma_jumped(m: MachineView, pc: u32)
    requires
        m.frames.len() > 0,
        frames_lead_on(m.image, m.frames),
    ensures
        frames_lead_on(m.image, m.jumped(pc).frames),
        m.jumped(pc).frames.drop_last() == m.frames.drop_last(),
{
    let n = m.frames.len() - 1;
    assert(frame_leads_on(m.image, m.frames[n]));
    let f = FrameView { pc, ..m.top() };
    assert forall|j: int| 0 <= j < f.labels.len() implies leads_on(
        code_of(m.image, f),
        #[trigger] f.labels[j],
    ) by {
        assert(leads_on(code_of(m.image, m.top()), m.top().labels[j]));
    }
    lemma_top_leads_on(m, f);
    assert(m.jumped(pc).frames.drop_last() =~= m.frames.drop_last());
}

/// Is a place behind an `end`, a `loop` or an `else`, where control comes from elsewhere?
pub open spec fn is_landing(ops: Seq<Operator>, at: int) -> bool {
    0 < at <= ops.len() && (ops[at - 1] is End || ops[at - 1] is Loop || ops[at - 1] is Else)
}

/// What an instruction does to the call stack, in a state whose counter is past it.
spec fn goes(m: MachineView, op: Operator, ops: Seq<Operator>, o: Outcome) -> bool {
    match op {
        Operator::Call { .. } | Operator::CallIndirect { .. } => advances(m, o, m.top().pc)
            || enters(m, o),
        Operator::Br { .. } | Operator::BrTable { .. } => gives_back(m, o) || (is_landing(
            ops,
            o.0.top().pc as int,
        ) && advances(m, o, o.0.top().pc)),
        Operator::BrIf { .. } | Operator::If { .. } => gives_back(m, o) || ((o.0.top().pc
            == m.top().pc || is_landing(ops, o.0.top().pc as int)) && advances(m, o, o.0.top().pc)),
        Operator::Return => gives_back(m, o),
        Operator::End => gives_back(m, o) || advances(m, o, m.top().pc),
        Operator::Else => advances(m, o, o.0.top().pc) && o.0.top().pc < ops.len()
            && ops[o.0.top().pc as int] is End,
        Operator::Unreachable => false,
        _ => advances(m, o, m.top().pc),
    }
}

proof fn lemma_constructs_go(m: MachineView, op: Operator, f: Function, pc: u32)
    requires
        m.frames.len() > 0,
        is_resolved(f),
        m.image.defined(m.top().function) matches Some(p) && m.image.functions@[p] == f,
        frames_lead_on(m.image, m.frames),
        pc < f.ops@.len(),
        f.ops@[pc as int] == op,
        op is Block || op is Loop || op is If,
        m.executed(op, f, pc).1 is Ok,
    ensures
        goes(m, op, f.ops@, m.executed(op, f, pc)),
{
    reveal(MachineView::executed);
    reveal(MachineView::block);
    reveal(MachineView::branch_if);
    law_constructs_nest(f.ops@, pc as int, pc as int);
    match op {
        Operator::Block { blockty } => {
            let (params, results) = block_arity(m.image, blockty)->0;
            lemma_label(m, f, pc, false, params, results);
            let l = m.label_for(false, pc, f.control@[pc as int]->0.end, params, results);
            lemma_labelled(m, l);
        },
        Operator::Loop { blockty } => {
            let (params, results) = block_arity(m.image, blockty)->0;
            lemma_label(m, f, pc, true, params, results);
            let l = m.label_for(true, pc, f.control@[pc as int]->0.end, params, results);
            lemma_labelled(m, l);
        },
        Operator::If { blockty } => {
            let (params, results) = block_arity(m.image, blockty)->0;
            let n = m.popped_i32().0;
            lemma_label(n, f, pc, false, params, results);
            let c = f.control@[pc as int]->0;
            let l = n.label_for(false, pc, c.end, params, results);
            lemma_labelled(n, l);
            lemma_jumped(n, next_index(c.end));
            if let Some(x) = c.otherwise {
                lemma_jumped(n.labelled(l), next_index(x));
            }
        },
        _ => {},
    }
}

proof fn lemma_branches_go(m: MachineView, op: Operator, f: Function, pc: u32)
    requires
        m.frames.len() > 0,
        m.image.defined(m.top().function) matches Some(p) && m.image.functions@[p] == f,
        frames_lead_on(m.image, m.frames),
        op is Else || op is End || op is Br || op is BrIf || op is BrTable || op is Return,
        m.executed(op, f, pc).1 is Ok,
    ensures
        goes(m, op, f.ops@, m.executed(op, f, pc)),
{
    reveal(MachineView::executed);
    reveal(MachineView::branching);
    let n = m.frames.len() - 1;
    assert(frame_leads_on(m.image, m.frames[n]));
    let o = m.executed(op, f, pc);
    lemma_branched(m, 0);
    match op {
        Operator::Br { relative_depth } => lemma_branch_goes(m, f, relative_depth),
        Operator::BrIf { relative_depth } => {
            let c = m.popped_i32().0;
            lemma_branch_goes_if(c, f, relative_depth);
            lemma_stays_advances(m, (c, Ok::<Progress, TrapView>(Progress::Continued)));
        },
        Operator::BrTable { targets, default } => {
            let c = m.popped_i32().0;
            let index = m.popped_i32().1->Ok_0;
            let depth = if (index as u32) < targets@.len() {
                targets@[(index as u32) as int]
            } else {
                default
            };
            lemma_branch_goes(c, f, depth);
        },
        Operator::Else => {
            let l = m.top().labels.last();
            assert(m.top().labels[m.top().labels.len() - 1] == l);
            assert(leads_on(f.ops@, l));
            lemma_jumped(m, l.end);
        },
        Operator::End => {
            if m.top().labels.len() > 0 {
                assert(turns(m, o, m.top().pc, m.top().labels.len() - 1)) by {
                    assert(m.top().labels.drop_last() =~= m.top().labels.take(
                        m.top().labels.len() - 1,
                    ));
                }
                lemma_turns_advances(m, o, m.top().pc, m.top().labels.len() - 1);
            }
        },
        _ => {},
    }
}

proof fn lemma_branch_goes(m: MachineView, f: Function, depth: u32)
    requires
        m.frames.len() > 0,
        m.image.defined(m.top().function) matches Some(p) && m.image.functions@[p] == f,
        frames_lead_on(m.image, m.frames),
        m.branched(depth).1 is Ok,
    ensures
        gives_back(m, m.branched(depth)) || (is_landing(f.ops@, m.branched(depth).0.top().pc as int)
            && advances(m, m.branched(depth), m.branched(depth).0.top().pc)),
{
    let n = m.frames.len() - 1;
    assert(frame_leads_on(m.image, m.frames[n]));
    lemma_branched(m, depth);
    if !gives_back(m, m.branched(depth)) {
        let index = m.top().labels.len() - 1 - depth;
        let label = m.top().labels[index];
        assert(leads_on(f.ops@, label));
        let kept = if label.is_loop {
            index + 1
        } else {
            index
        };
        lemma_turns_advances(m, m.branched(depth), label.branch_target, kept);
    }
}

proof fn lemma_branch_goes_if(m: MachineView, f: Function, depth: u32)
    requires
        m.frames.len() > 0,
        m.image.defined(m.top().function) matches Some(p) && m.image.functions@[p] == f,
        frames_lead_on(m.image, m.frames),
    ensures
        m.branched(depth).1 is Ok ==> gives_back(m, m.branched(depth)) || (is_landing(
            f.ops@,
            m.branched(depth).0.top().pc as int,
        ) && advances(m, m.branched(depth), m.branched(depth).0.top().pc)),
{
    if m.branched(depth).1 is Ok {
        lemma_branch_goes(m, f, depth);
    }
}

proof fn lemma_executed_goes(m: MachineView, op: Operator, f: Function, pc: u32)
    requires
        m.frames.len() > 0,
        is_resolved(f),
        m.image.defined(m.top().function) matches Some(p) && m.image.functions@[p] == f,
        frames_lead_on(m.image, m.frames),
        pc < f.ops@.len(),
        f.ops@[pc as int] == op,
        m.executed(op, f, pc).1 is Ok,
    ensures
        goes(m, op, f.ops@, m.executed(op, f, pc)),
{
    let o = m.executed(op, f, pc);
    match op {
        Operator::Block { .. } | Operator::Loop { .. } | Operator::If { .. } => lemma_constructs_go(
            m,
            op,
            f,
            pc,
        ),
        Operator::Else
        | Operator::End
        | Operator::Br { .. }
        | Operator::BrIf { .. }
        | Operator::BrTable { .. }
        | Operator::Return => lemma_branches_go(m, op, f, pc),
        Operator::Call { function_index } => {
            reveal(MachineView::executed);
            lemma_called(m, function_index);
            if stays(m, o) {
                lemma_stays_advances(m, o);
            }
        },
        Operator::CallIndirect { type_index } => {
            reveal(MachineView::executed);
            lemma_called_indirect(m, type_index);
            if stays(m, o) {
                lemma_stays_advances(m, o);
            }
        },
        _ => {
            reveal(MachineView::executed);
            lemma_plain_stays(m, op);
            lemma_access_stays(m, op);
            assert(stays(m, o));
            lemma_stays_advances(m, o);
        },
    }
}

proof fn lemma_numeric_is_plain(op: Operator, stack: Seq<Value>)
    requires
        applied(op, stack).1 == Ok::<bool, TrapView>(true),
    ensures
        !(op is Call || op is CallIndirect || op is Br || op is BrTable || op is BrIf || op is If
            || op is Return || op is End || op is Else || op is Unreachable || op is Block
            || op is Loop),
{
    assert(!(shape(op) is NotNumeric));
}

/// What one instruction does to the call stack.
proof fn lemma_stepped_goes(m: MachineView, p: int)
    requires
        !m.finished,
        m.frames.len() > 0,
        m.image.defined(m.top().function) == Some(p),
        is_resolved(m.image.functions@[p]),
        m.top().pc < m.image.functions@[p].ops@.len(),
        frames_lead_on(m.image, m.frames),
        m.stepped().1 is Ok,
    ensures
        goes(
            m.advanced(),
            m.image.functions@[p].ops@[m.top().pc as int],
            m.image.functions@[p].ops@,
            m.stepped(),
        ),
        frames_lead_on(m.image, m.advanced().frames),
        m.advanced().frames.drop_last() == m.frames.drop_last(),
{
    let f = m.image.functions@[p];
    let pc = m.top().pc;
    let op = f.ops@[pc as int];
    lemma_jumped(m, next_index(pc));
    let (stack, handled) = applied(op, m.stack);
    let c = m.advanced().with_stack(stack);
    if handled == Ok::<bool, TrapView>(true) {
        lemma_numeric_is_plain(op, m.stack);
        lemma_stays_advances(m.advanced(), m.stepped());
    } else {
        lemma_executed_goes(c, op, f, pc);
        assert(goes(m.advanced(), op, f.ops@, m.stepped()));
    }
}

/// Runs are straight: the interpreter enters one only where it starts, and leaves one only at its
/// end. An instruction that sends control anywhere but to the next one ends its run, and where
/// control goes in the same frame a run starts, unless it is the `end` that an `else` goes to. A
/// call leaves its frame at the next instruction and starts a run of the function it enters.
pub proof fn law_runs_are_straight(m: MachineView, p: int)
    requires
        !m.finished,
        m.frames.len() > 0,
        m.image.defined(m.top().function) == Some(p),
        is_resolved(m.image.functions@[p]),
        m.top().pc < m.image.functions@[p].ops@.len(),
        frames_lead_on(m.image, m.frames),
        m.stepped().1 is Ok,
    ensures
        ({
            let ops = m.image.functions@[p].ops@;
            let pc = m.top().pc as int;
            let n = m.stepped().0;
            let depth = m.frames.len();
            &&& frames_lead_on(m.image, n.frames)
            &&& depth - 1 <= n.frames.len() <= depth + 1
            &&& n.frames.len() < depth ==> starts_run(ops, pc + 1)
            &&& n.frames.len() == depth ==> n.top().function == m.top().function
            &&& n.frames.len() == depth && n.top().pc != pc + 1 ==> starts_run(ops, pc + 1) && (
            starts_run(ops, n.top().pc as int) || (ops[pc] is Else && n.top().pc < ops.len()
                && ops[n.top().pc as int] is End))
            &&& n.frames.len() > depth ==> n.frames[depth - 1].pc == pc + 1 && n.top().pc == 0
        }),
{
    lemma_stepped_goes(m, p);
    let n = m.stepped().0;
    let a = m.advanced();
    let depth = m.frames.len();
    if n.frames.len() < depth {
        assert(n.frames == a.frames.drop_last());
        lemma_top_leads_on(a, a.frames[depth - 1]);
    } else if n.frames.len() > depth {
        assert(frames_lead_on(m.image, n.frames)) by {
            assert forall|k: int| 0 <= k < n.frames.len() implies frame_leads_on(
                m.image,
                #[trigger] n.frames[k],
            ) by {
                if k < depth {
                    assert(n.frames[k] == n.frames.drop_last()[k]);
                    assert(frame_leads_on(m.image, a.frames[k]));
                }
            }
        }
        assert(n.frames[depth - 1] == n.frames.drop_last()[depth - 1]);
    }
}

/// Can an instruction send control elsewhere: off the frame it is in, or to another place of it?
pub open spec fn can_divert(op: Operator) -> bool {
    exists|m: MachineView, f: Function, pc: u32| #[trigger] diverts(m, op, f, pc)
}

/// Does an instruction send control elsewhere in a state?
pub open spec fn diverts(m: MachineView, op: Operator, f: Function, pc: u32) -> bool {
    let o = m.executed(op, f, pc);
    let depth = m.frames.len();
    depth > 0 && o.1 is Ok && (o.0.frames.len() < depth || o.0.frames[depth - 1].pc != m.top().pc)
}

/// A state that stands at the start of a function, within as many constructs as are needed to
/// branch out of one, with a number on the stack.
spec fn deep_state(depth: u32, n: i32) -> MachineView {
    let label = LabelWitness {
        branch_target: 7,
        arity: 0,
        stack_height: 0,
        end: 6,
        is_loop: false,
    };
    let frame = FrameView {
        function: 0,
        pc: 1,
        locals: Seq::empty(),
        stack_base: 0,
        arity: 0,
        labels: Seq::new(depth as nat + 1, |i: int| label),
    };
    MachineView {
        stack: seq![Value::I32(n)],
        frames: seq![frame],
        finished: false,
        ..arbitrary()
    }
}

proof fn lemma_branch_diverts(m: MachineView, depth: u32, n: i32)
    requires
        m == deep_state(depth, n) || m == deep_state(depth, n).with_stack(Seq::empty()),
    ensures
        m.branched(depth).1 is Ok,
        m.branched(depth).0.frames.len() == 1,
        m.branched(depth).0.frames[0].pc == 7,
{
    reveal(MachineView::branched);
}

/// Runs are as long as they can be: an instruction ends one only if it delimits a construct, sends
/// control elsewhere in some state, or stops the program. Calls do none of this.
pub proof fn law_runs_are_long(op: Operator)
    ensures
        is_boundary(op) <==> !(bracket(op) is Neither) || can_divert(op) || op is Unreachable,
{
    let f: Function = arbitrary();
    reveal(MachineView::executed);
    reveal(MachineView::branching);
    match op {
        Operator::Br { relative_depth } => {
            let m = deep_state(relative_depth, 1);
            lemma_branch_diverts(m, relative_depth, 1);
            assert(diverts(m, op, f, 0));
        },
        Operator::BrIf { relative_depth } => {
            let m = deep_state(relative_depth, 1);
            let n = m.popped_i32().0;
            assert(n.stack =~= Seq::empty());
            lemma_branch_diverts(n, relative_depth, 1);
            assert(diverts(m, op, f, 0));
        },
        Operator::BrTable { targets, default } => {
            let depth = if 0 < targets@.len() {
                targets@[0]
            } else {
                default
            };
            let m = deep_state(depth, 0);
            let n = m.popped_i32().0;
            assert(n.stack =~= Seq::empty());
            lemma_branch_diverts(n, depth, 0);
            assert(diverts(m, op, f, 0));
        },
        Operator::Return => {
            let m = deep_state(0, 0);
            reveal(MachineView::left);
            assert(diverts(m, op, f, 0));
        },
        _ => {
            if bracket(op) is Neither {
                assert forall|m: MachineView, f: Function, pc: u32| !#[trigger] diverts(
                    m,
                    op,
                    f,
                    pc,
                ) by {
                    lemma_plain_stays(m, op);
                    lemma_access_stays(m, op);
                    if let Operator::Call { function_index } = op {
                        lemma_called(m, function_index);
                    }
                    if let Operator::CallIndirect { type_index } = op {
                        lemma_called_indirect(m, type_index);
                    }
                    let o = m.executed(op, f, pc);
                    if o.1 is Ok && m.frames.len() > 0 {
                        assert(stays(m, o) || enters(m, o));
                        if enters(m, o) {
                            assert(o.0.frames[m.frames.len() - 1] == o.0.frames.drop_last()[
                            m.frames.len() - 1]);
                        }
                    }
                }
            }
        },
    }
}

/// How many instructions of a frame's run have been paid for and not executed. None have where a
/// run is about to start.
pub open spec fn ahead(image: Image, f: FrameView, paid: bool) -> nat {
    let ops = code_of(image, f);
    if starts_run(ops, f.pc as int) && !paid {
        0
    } else {
        run_length(ops, f.pc as int)
    }
}

/// How many instructions of the frames below have been paid for and not executed.
pub open spec fn ahead_below(image: Image, frames: Seq<FrameView>) -> nat
    decreases frames.len(),
{
    if frames.len() == 0 {
        0
    } else {
        ahead_below(image, frames.drop_last()) + ahead(image, frames.last(), false)
    }
}

/// How many instructions have been paid for and not executed. The next one may have been paid for
/// in front of its run.
pub open spec fn all_ahead(m: MachineView, paid: bool) -> nat {
    if m.frames.len() == 0 {
        0
    } else {
        ahead_below(m.image, m.frames.drop_last()) + ahead(m.image, m.top(), paid)
    }
}

/// How many of the first instructions of a guarded run are an `else`.
pub open spec fn elses(w: Seq<Weave>, m: MachineView, paid: bool, instructions: nat) -> nat
    decreases instructions,
{
    if instructions == 0 || m.finished {
        0
    } else {
        let next = guarded(w, m, paid).0;
        let over = passes_over(w, m);
        (if over {
            1nat
        } else {
            0
        }) + elses(w, next, over, (instructions - 1) as nat)
    }
}

/// Is every run charged for in front of its first instruction, and nothing else charged?
pub open spec fn charges_runs(w: Seq<Weave>, config: Config, plain: Image) -> bool {
    &&& config.meter_fuel
    &&& forall|p: int, i: int|
        0 <= p < w.len() && 0 <= i < w[p].len() ==> (#[trigger] w[p].amounts[i]) == charged_at(
            config,
            plain.functions@[p].ops@,
            i,
        )
}

/// What holds between any two instructions of a guarded run.
spec fn is_balanced(m: MachineView, paid: bool, executed: int, passed: int) -> bool {
    &&& m.finished ==> m.frames.len() == 0
    &&& frames_lead_on(m.image, m.frames)
    &&& m.meter.consumed + passed == executed + all_ahead(m, paid)
}

proof fn lemma_run_length(ops: Seq<Operator>, i: int)
    requires
        0 <= i < ops.len(),
    ensures
        0 < run_length(ops, i) <= ops.len() - i,
        is_boundary(ops[i]) ==> run_length(ops, i) == 1,
        !is_boundary(ops[i]) ==> run_length(ops, i) == 1 + run_length(ops, i + 1),
    decreases ops.len() - i,
{
    if i + 1 < ops.len() {
        lemma_run_length(ops, i + 1);
    } else {
        assert(run_length(ops, i + 1) == 0);
    }
}

proof fn lemma_amount(n: u32)
    ensures
        (n as i32) as u32 == n,
{
    assert((n as i32) as u32 == n) by (bit_vector);
}

/// Executing an instruction uses up what was paid for it.
proof fn lemma_balance(m: MachineView, p: int)
    requires
        !m.finished,
        m.frames.len() > 0,
        m.image.defined(m.top().function) == Some(p),
        is_resolved(m.image.functions@[p]),
        m.top().pc < m.image.functions@[p].ops@.len(),
        frames_lead_on(m.image, m.frames),
        m.stepped().1 is Ok,
        m.stepped().0.image == m.image,
    ensures
        ({
            let op = m.image.functions@[p].ops@[m.top().pc as int];
            let n = m.stepped().0;
            &&& all_ahead(n, op is Else) + 1 == all_ahead(m, true) + (if op is Else {
                1int
            } else {
                0
            })
            &&& n.finished ==> n.frames.len() == 0
            &&& frames_lead_on(n.image, n.frames)
        }),
{
    let ops = m.image.functions@[p].ops@;
    let pc = m.top().pc as int;
    let op = ops[pc];
    let n = m.stepped().0;
    let a = m.advanced();
    lemma_stepped_goes(m, p);
    law_runs_are_straight(m, p);
    lemma_run_length(ops, pc);
    if pc + 1 < ops.len() {
        lemma_run_length(ops, pc + 1);
    }
    let depth = m.frames.len();
    if n.frames.len() == depth {
        assert(n.frames.drop_last() == m.frames.drop_last());
        assert(code_of(n.image, n.top()) == ops);
        if op is Else {
            lemma_run_length(ops, n.top().pc as int);
        }
    } else if n.frames.len() > depth {
        let caller = n.frames.drop_last().last();
        assert(n.frames.drop_last() == a.frames);
        assert(a.frames.drop_last() == m.frames.drop_last());
        assert(code_of(n.image, caller) == ops);
    } else {
        assert(n.frames == m.frames.drop_last());
    }
    if n.frames.len() > 0 {
        assert(n.frames.drop_last().push(n.top()) =~= n.frames);
    }
}

proof fn lemma_balanced(
    w: Seq<Weave>,
    config: Config,
    a: MachineView,
    paid: bool,
    b: MachineView,
    executed: int,
    passed: int,
)
    requires
        twins(w, a, paid, b),
        charges_runs(w, config, a.image),
        all_resolved(a.image),
        is_balanced(a, paid, executed, passed),
        !a.finished,
        guarded(w, a, paid).1 is Ok,
    ensures
        is_balanced(
            guarded(w, a, paid).0,
            passes_over(w, a),
            executed + 1,
            passed + if passes_over(w, a) {
                1int
            } else {
                0
            },
        ),
        guarded(w, a, paid).0.image == a.image,
{
    if let Some((weave, i)) = next_of(w, a) {
        let p = a.image.defined(a.top().function)->0;
        let ops = a.image.functions@[p].ops@;
        let k = a.frames.len() - 1;
        assert(frame_twin(w, a.image, a.frames[k], b.frames[k], paid));
        assert(woven(a.image.charge, w[p], a.image.functions@[p], b.image.functions@[p]));
        assert(w[p].len() == ops.len()) by {
            reveal(woven);
        }
        assert(stands_for(
            a.image.charge,
            w[p],
            a.image.functions@[p],
            b.image.functions@[p],
            i,
        )) by {
            reveal(woven);
        }
        assert(w[p].amounts[i] == charged_at(config, ops, i));
        lemma_run_length(ops, i);
        lemma_amount(w[p].amounts[i]);
        assert(is_resolved(a.image.functions@[p]));
        let meter = paid_for(weave, i, paid, a.meter)->0;
        let stack = operand_fixed(weave.before[i], a.stack)->Ok_0;
        let x = MachineView { meter, stack, ..a };
        assert(all_ahead(x, true) + a.meter.consumed == all_ahead(a, paid) + meter.consumed);
        law_a_step_is_one_instruction(x);
        lemma_refuelled_stepped(x, meter, p);
        assert(refuelled(x, meter) == x);
        assert(x.stepped().0.meter == meter);
        lemma_balance(x, p);
    } else {
        let k = a.frames.len() - 1;
        if a.frames.len() > 0 {
            assert(frame_twin(w, a.image, a.frames[k], b.frames[k], paid));
            let p = a.image.defined(a.top().function)->0;
            assert(woven(a.image.charge, w[p], a.image.functions@[p], b.image.functions@[p]));
            reveal(woven);
        }
    }
}

proof fn lemma_run_balanced(
    w: Seq<Weave>,
    config: Config,
    a: MachineView,
    paid: bool,
    b: MachineView,
    n: nat,
    executed: int,
    passed: int,
)
    requires
        twins(w, a, paid, b),
        charges_runs(w, config, a.image),
        all_resolved(a.image),
        is_balanced(a, paid, executed, passed),
        guarded_after(w, a, paid, n) is Some,
    ensures
        ({
            let (c, last) = guarded_after(w, a, paid, n)->0;
            is_balanced(c, last, executed + n, passed + elses(w, a, paid, n))
        }),
    decreases n,
{
    if n > 0 {
        lemma_balanced(w, config, a, paid, b, executed, passed);
        let j = lemma_guarded(w, a, paid, b);
        let over = passes_over(w, a);
        let next = guarded(w, a, paid).0;
        lemma_run_balanced(
            w,
            config,
            next,
            over,
            b.after(j)->0,
            (n - 1) as nat,
            executed + 1,
            passed + if over {
                1int
            } else {
                0
            },
        );
    }
}

/// Fuel is the instructions executed. Of a module whose runs are charged for, an execution that
/// ends with an answer has consumed as much fuel as the module without what is woven into it
/// executes instructions, less one for each `else`, which goes to an `end` that is not charged.
pub proof fn law_fuel_is_the_instructions_executed(
    w: Seq<Weave>,
    config: Config,
    plain: Image,
    image: Image,
    input: Seq<u8>,
    limits: Limits,
    instructions: nat,
    e: Ending,
) -> (n: nat)
    requires
        weaves(w, plain, image),
        charges_runs(w, config, plain),
        all_resolved(plain),
        started(image, input, limits) is Ok,
        ends(started(image, input, limits)->Ok_0, instructions, e),
        e is Answered,
    ensures
        started(plain, input, limits) is Ok,
        guarded_ends(w, started(plain, input, limits)->Ok_0, false, n, e),
        started(image, input, limits)->Ok_0.after(instructions)->0.meter.consumed + elses(
            w,
            started(plain, input, limits)->Ok_0,
            false,
            n,
        ) == n,
{
    law_a_woven_module_starts_alike(w, plain, image, input, limits);
    let a = started(plain, input, limits)->Ok_0;
    let b = started(image, input, limits)->Ok_0;
    let n = law_a_woven_module_does_nothing_else(w, a, false, b, instructions, e);
    lemma_started_balanced(plain, input, limits);
    lemma_run_balanced(w, config, a, false, b, n, 0, 0);
    n
}

proof fn lemma_started_balanced(plain: Image, input: Seq<u8>, limits: Limits)
    requires
        started(plain, input, limits) is Ok,
    ensures
        is_balanced(started(plain, input, limits)->Ok_0, false, 0, 0),
        started(plain, input, limits)->Ok_0.image == plain,
{
    reveal(MachineView::entered);
    let a = started(plain, input, limits)->Ok_0;
    assert(a.frames.len() == 1);
    assert(a.frames.drop_last() =~= Seq::empty());
    assert(frame_leads_on(plain, a.frames[0]));
}

/// Every instruction is paid for before it is executed: however far a guarded run has got, the
/// fuel consumed covers every instruction executed, but for the `end` of each `else`, and what is
/// left of the runs that have been entered.
pub proof fn law_fuel_is_paid_first(
    w: Seq<Weave>,
    config: Config,
    plain: Image,
    image: Image,
    input: Seq<u8>,
    limits: Limits,
    n: nat,
)
    requires
        weaves(w, plain, image),
        charges_runs(w, config, plain),
        all_resolved(plain),
        started(plain, input, limits) is Ok,
        guarded_after(w, started(plain, input, limits)->Ok_0, false, n) is Some,
    ensures
        ({
            let a = started(plain, input, limits)->Ok_0;
            let (c, paid) = guarded_after(w, a, false, n)->0;
            c.meter.consumed + elses(w, a, false, n) == n + all_ahead(c, paid)
        }),
{
    law_a_woven_module_starts_alike(w, plain, image, input, limits);
    let a = started(plain, input, limits)->Ok_0;
    let b = started(image, input, limits)->Ok_0;
    lemma_started_balanced(plain, input, limits);
    lemma_run_balanced(w, config, a, false, b, n, 0, 0);
}

} // verus!
