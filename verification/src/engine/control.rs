//! Where execution goes.
//!
//! Constructs, branches, calls and returns, each described by two moments of an execution: where a
//! construct was entered and a branch out of it is taken, where a function was called and it
//! returns.
use crate::engine::image::{Control, HostFunction, Image};
use crate::engine::instructions::{
    below, code, executes, from_top, is_as_large, leads_to, lemma_step, past, past_memory, traps,
};
use crate::engine::integers::{lemma_signed_32, lemma_unsigned_32, unsigned_32};
use crate::engine::machine::Progress;
use crate::engine::numeric::TrapView;
use crate::engine::operator::{BlockType, Operator};
use crate::engine::semantics::{FrameView, MachineView, unwound};
use crate::engine::starting::is_zero;
use crate::engine::witness::LabelWitness;
use crate::state::{Value, output_hash};
use crate::wasm::FuncType;
use vstd::prelude::*;

verus! {

/// The frame a machine is in.
pub open spec fn frame(m: MachineView) -> FrameView {
    m.frames.last()
}

/// The constructs a machine is in, the innermost last.
pub open spec fn labels(m: MachineView) -> Seq<LabelWitness> {
    m.frames.last().labels
}

/// The machine at another instruction of the frame it is in, in other constructs.
pub open spec fn at(m: MachineView, pc: int, labels: Seq<LabelWitness>) -> MachineView {
    MachineView {
        frames: m.frames.drop_last().push(FrameView { pc: pc as u32, labels, ..frame(m) }),
        ..m
    }
}

/// How many values a construct takes, and how many it leaves.
pub open spec fn carries(image: Image, ty: BlockType) -> Option<(int, int)> {
    match ty {
        BlockType::Empty => Some((0, 0)),
        BlockType::Value => Some((0, 1)),
        BlockType::FuncType(i) => if i < image.types@.len() {
            Some(
                (
                    image.types@[i as int].params@.len() as int,
                    image.types@[i as int].results@.len() as int,
                ),
            )
        } else {
            None
        },
    }
}

/// Does a machine enter a construct whose counts and positions fit their fields?
pub open spec fn opens(m: MachineView, op: Operator, ty: BlockType) -> bool {
    &&& executes(m, op)
    &&& op == (Operator::Block { blockty: ty }) || op == (Operator::Loop { blockty: ty }) || op == (
    Operator::If { blockty: ty })
    &&& frame(m).pc < code(m).control@.len()
    &&& code(m).control@[frame(m).pc as int] is Some
    &&& control(m).end < u32::MAX
    &&& control(m).otherwise matches Some(at) ==> at < u32::MAX
    &&& m.stack.len() <= u32::MAX
    &&& carries(m.image, ty) matches Some((params, results)) && params <= u32::MAX && results
        <= u32::MAX && params + (if op is If {
        1int
    } else {
        0
    }) <= m.stack.len()
}

/// Where the construct that a machine is about to enter ends.
pub open spec fn control(m: MachineView) -> Control {
    code(m).control@[frame(m).pc as int]->0
}

/// `block` and `loop` go on behind themselves, one construct further in, with the stack as it was.
pub proof fn law_a_construct_is_entered(m: MachineView, op: Operator, ty: BlockType)
    requires
        opens(m, op, ty),
        op !is If,
    ensures
        ({
            let o = m.stepped();
            &&& leads_to(o, at(past(m, m.stack), frame(m).pc + 1, labels(o.0)))
            &&& labels(o.0).len() == labels(m).len() + 1
            &&& labels(o.0).drop_last() == labels(m)
        }),
{
    lemma_step(m, op);
    reveal(MachineView::executed);
    reveal(MachineView::block);
    assert(labels(m.stepped().0).drop_last() =~= labels(m));
}

/// `if` takes a condition. If it is not zero, execution goes on behind the `if`; if it is zero,
/// behind the `else`, or behind the `end` and outside the construct where there is no `else`.
pub proof fn law_an_if_picks_a_branch(m: MachineView, op: Operator, ty: BlockType, condition: i32)
    requires
        opens(m, op, ty),
        op is If,
        from_top(m, 0) == Value::I32(condition),
    ensures
        ({
            let o = m.stepped();
            let n = past(m, below(m, 1));
            if condition == 0 && control(m).otherwise is None {
                leads_to(o, at(n, control(m).end + 1, labels(m)))
            } else {
                &&& leads_to(
                    o,
                    at(
                        n,
                        if condition != 0 {
                            frame(m).pc + 1
                        } else {
                            control(m).otherwise->0 + 1
                        },
                        labels(o.0),
                    ),
                )
                &&& labels(o.0).len() == labels(m).len() + 1
                &&& labels(o.0).drop_last() == labels(m)
            }
        }),
{
    lemma_step(m, op);
    reveal(MachineView::executed);
    reveal(MachineView::branch_if);
    assert(m.stack.drop_last() =~= below(m, 1));
    let n = past(m, below(m, 1));
    assert(n.frames == past(m, m.stack).frames);
    let o = m.stepped();
    if condition == 0 && control(m).otherwise is None {
        assert(o.0.frames =~= at(n, control(m).end + 1, labels(m)).frames);
    } else {
        assert(labels(o.0).drop_last() =~= labels(m));
        let to = if condition != 0 {
            frame(m).pc + 1
        } else {
            control(m).otherwise->0 + 1
        };
        assert(o.0.frames =~= at(n, to, labels(o.0)).frames);
    }
}

/// Is a machine one that branches, with this stack under what the branch itself takes?
pub open spec fn branches(n: MachineView, depth: u32, stack: Seq<Value>) -> bool {
    ||| executes(n, Operator::Br { relative_depth: depth }) && stack == n.stack
    ||| executes(n, Operator::BrIf { relative_depth: depth }) && n.stack.len() > 0 && stack
        == below(n, 1) && (from_top(n, 0) matches Value::I32(c) && c != 0)
    ||| exists|targets: Vec<u32>, default: u32|
        {
            &&& #[trigger] executes(n, Operator::BrTable { targets, default })
            &&& n.stack.len() > 0
            &&& stack == below(n, 1)
            &&& from_top(n, 0) matches Value::I32(i) && depth == if unsigned_32(i) < targets@.len() {
                targets@[unsigned_32(i)]
            } else {
                default
            }
        }
}

proof fn lemma_branches(n: MachineView, depth: u32, stack: Seq<Value>)
    requires
        branches(n, depth, stack),
    ensures
        n.stepped() == past(n, stack).branched(depth),
        n.frames.len() > 0,
{
    reveal(MachineView::executed);
    reveal(MachineView::branching);
    if executes(n, Operator::Br { relative_depth: depth }) && stack == n.stack {
        lemma_step(n, Operator::Br { relative_depth: depth });
    } else if executes(n, Operator::BrIf { relative_depth: depth }) && n.stack.len() > 0 && stack
        == below(n, 1) && (from_top(n, 0) matches Value::I32(c) && c != 0) {
        lemma_step(n, Operator::BrIf { relative_depth: depth });
        assert(n.stack.drop_last() =~= below(n, 1));
        assert(past(n, n.stack).with_stack(stack) == past(n, stack));
    } else {
        let (targets, default) = choose|targets: Vec<u32>, default: u32|
            {
                &&& #[trigger] executes(n, Operator::BrTable { targets, default })
                &&& n.stack.len() > 0
                &&& stack == below(n, 1)
                &&& from_top(n, 0) matches Value::I32(i) && depth == if unsigned_32(i)
                    < targets@.len() {
                    targets@[unsigned_32(i)]
                } else {
                    default
                }
            };
        lemma_step(n, Operator::BrTable { targets, default });
        if let Value::I32(i) = from_top(n, 0) {
            lemma_unsigned_32(i);
        }
        assert(n.stack.drop_last() =~= below(n, 1));
        assert(past(n, n.stack).with_stack(stack) == past(n, stack));
    }
}

/// `br_if` goes on behind itself if its condition is zero.
pub proof fn law_br_if_may_go_on(n: MachineView, depth: u32)
    requires
        executes(n, Operator::BrIf { relative_depth: depth }),
        n.stack.len() > 0,
        from_top(n, 0) == Value::I32(0),
    ensures
        leads_to(n.stepped(), past(n, below(n, 1))),
{
    lemma_step(n, Operator::BrIf { relative_depth: depth });
    reveal(MachineView::executed);
    reveal(MachineView::branching);
    assert(n.stack.drop_last() =~= below(n, 1));
}

/// The lowest values of a stack under its highest ones.
pub open spec fn closed_up(stack: Seq<Value>, low: int, high: int) -> Seq<Value> {
    stack.take(low) + stack.skip(stack.len() - high)
}

/// A branch out of a construct, however deep inside it: a `block` or `if` is left behind its
/// `end`, with the results it leaves; a `loop` goes on behind the `loop`, still inside it, with
/// what it takes. Under those values is what was under the construct when it was entered.
pub proof fn law_a_branch_leaves_a_construct(
    m: MachineView,
    op: Operator,
    ty: BlockType,
    n: MachineView,
    depth: u32,
    stack: Seq<Value>,
)
    requires
        opens(m, op, ty),
        op is If ==> from_top(m, 0) is I32,
        m.stepped().1 is Ok,
        labels(m.stepped().0).len() == labels(m).len() + 1,
        branches(n, depth, stack),
        labels(n).len() == labels(m).len() + 1 + depth,
        labels(n).take(labels(m).len() as int + 1) == labels(m.stepped().0),
        ({
            let (params, results) = carries(m.image, ty)->0;
            stack.len() >= m.stepped().0.stack.len() - params + (if op is Loop {
                params
            } else {
                results
            })
        }),
    ensures
        ({
            let (params, results) = carries(m.image, ty)->0;
            let base = m.stepped().0.stack.len() - params;
            if op is Loop {
                leads_to(
                    n.stepped(),
                    at(
                        past(n, closed_up(stack, base, params)),
                        frame(m).pc + 1,
                        labels(m.stepped().0),
                    ),
                )
            } else {
                leads_to(
                    n.stepped(),
                    at(past(n, closed_up(stack, base, results)), control(m).end + 1, labels(m)),
                )
            }
        }),
{
    let (params, results) = carries(m.image, ty)->0;
    let entered = m.stepped().0;
    let base = entered.stack.len() - params;
    let index = labels(m).len() as int;
    lemma_branches(n, depth, stack);
    lemma_step(m, op);
    assert(labels(n)[index] == labels(n).take(index + 1)[index]);
    let label = labels(entered)[index];
    assert(labels(entered).take(index) == labels(m) && label.is_loop == (op is Loop)
        && label.branch_target == (if op is Loop {
        frame(m).pc + 1
    } else {
        control(m).end + 1
    }) && label.arity == (if op is Loop {
        params
    } else {
        results
    }) && label.stack_height == base) by {
        reveal(MachineView::executed);
        reveal(MachineView::block);
        reveal(MachineView::branch_if);
        assert(labels(entered).take(index) =~= labels(m));
    }
    assert(labels(n).take(index) =~= labels(entered).take(index));
    reveal(MachineView::branched);
    let keep = label.arity as int;
    assert(unwound(stack, base as nat, keep as nat) =~= closed_up(stack, base, keep));
    let p = past(n, closed_up(stack, base, keep));
    assert(p.frames == past(n, stack).frames);
}

/// At its `end` a construct is over: the one around it is the innermost again. An `else` that is
/// reached is where the first branch of its `if` is over: execution goes on at the `end`. Neither
/// changes the stack.
pub proof fn law_a_construct_ends(n: MachineView)
    requires
        n.frames.len() > 0,
        labels(n).len() > 0,
    ensures
        executes(n, Operator::End) ==> leads_to(
            n.stepped(),
            at(past(n, n.stack), frame(n).pc + 1, labels(n).drop_last()),
        ),
        executes(n, Operator::Else) ==> leads_to(
            n.stepped(),
            at(past(n, n.stack), labels(n).last().end as int, labels(n)),
        ),
{
    reveal(MachineView::executed);
    reveal(MachineView::branching);
    if executes(n, Operator::End) {
        lemma_step(n, Operator::End);
    }
    if executes(n, Operator::Else) {
        lemma_step(n, Operator::Else);
    }
}

/// The innermost construct of a machine that has just entered one ends where its `end` is.
pub proof fn law_a_construct_knows_its_end(m: MachineView, op: Operator, ty: BlockType)
    requires
        opens(m, op, ty),
        op is If ==> from_top(m, 0) is I32,
        labels(m.stepped().0).len() == labels(m).len() + 1,
    ensures
        labels(m.stepped().0).last().end == control(m).end,
{
    lemma_step(m, op);
    reveal(MachineView::executed);
    reveal(MachineView::block);
    reveal(MachineView::branch_if);
}

/// The signature of a function, imported or not.
pub open spec fn signature(image: Image, index: u32) -> FuncType {
    image.types@[image.func_types@[index as int] as int]
}

/// Is this a function of the module itself, with a signature?
pub open spec fn is_defined(image: Image, index: u32) -> bool {
    &&& image.host_imports@.len() <= u32::MAX
    &&& image.host_imports@.len() <= index < image.host_imports@.len() + image.functions@.len()
    &&& index != image.charge
    &&& index < image.func_types@.len()
    &&& image.func_types@[index as int] < image.types@.len()
    &&& signature(image, index).results@.len() <= u32::MAX
}

/// Does a machine call a function of its module, with this stack under what the call itself takes?
/// Through the table, the function there must have the type that is asked for.
pub open spec fn calls(m: MachineView, index: u32, stack: Seq<Value>) -> bool {
    ||| executes(m, Operator::Call { function_index: index }) && stack == m.stack
    ||| exists|ty: u32|
        {
            &&& #[trigger] executes(m, Operator::CallIndirect { type_index: ty })
            &&& m.stack.len() > 0
            &&& stack == below(m, 1)
            &&& ty < m.image.types@.len()
            &&& from_top(m, 0) matches Value::I32(slot) && unsigned_32(slot) < m.table.len()
                && m.table[unsigned_32(slot)] == Some(index)
            &&& m.image.types@[ty as int].deep_view() == signature(m.image, index).deep_view()
        }
}

proof fn lemma_calls(m: MachineView, index: u32, stack: Seq<Value>)
    requires
        calls(m, index, stack),
        index < m.image.func_types@.len(),
        m.image.func_types@[index as int] < m.image.types@.len(),
    ensures
        m.stepped() == past(m, stack).called(index),
        m.frames.len() > 0,
{
    reveal(MachineView::executed);
    reveal(MachineView::called_indirect);
    if executes(m, Operator::Call { function_index: index }) && stack == m.stack {
        lemma_step(m, Operator::Call { function_index: index });
    } else {
        let ty = choose|ty: u32|
            {
                &&& #[trigger] executes(m, Operator::CallIndirect { type_index: ty })
                &&& m.stack.len() > 0
                &&& stack == below(m, 1)
                &&& ty < m.image.types@.len()
                &&& from_top(m, 0) matches Value::I32(slot) && unsigned_32(slot) < m.table.len()
                    && m.table[unsigned_32(slot)] == Some(index)
                &&& m.image.types@[ty as int].deep_view() == signature(m.image, index).deep_view()
            };
        lemma_step(m, Operator::CallIndirect { type_index: ty });
        if let Value::I32(slot) = from_top(m, 0) {
            lemma_unsigned_32(slot);
        }
        assert(m.stack.drop_last() =~= below(m, 1));
        assert(past(m, m.stack).with_stack(stack) == past(m, stack));
    }
}

/// A call through the table of a slot that it does not have, that is empty, or that holds a
/// function of another type, traps and says which.
pub proof fn law_a_call_through_the_table_is_checked(m: MachineView, ty: u32, slot: i32)
    requires
        executes(m, Operator::CallIndirect { type_index: ty }),
        m.stack.len() > 0,
        from_top(m, 0) == Value::I32(slot),
    ensures
        ({
            let i = unsigned_32(slot);
            &&& i >= m.table.len() ==> traps(m.stepped(), TrapView::TableOutOfBounds)
            &&& i < m.table.len() && m.table[i] is None ==> traps(
                m.stepped(),
                TrapView::UninitializedElement,
            )
            &&& i < m.table.len() && (m.table[i] matches Some(index) && (ty >= m.image.types@.len()
                || index >= m.image.func_types@.len() || m.image.func_types@[index as int]
                >= m.image.types@.len() || m.image.types@[ty as int].deep_view() != signature(
                m.image,
                index,
            ).deep_view())) ==> traps(m.stepped(), TrapView::SignatureMismatch)
        }),
{
    lemma_step(m, Operator::CallIndirect { type_index: ty });
    reveal(MachineView::executed);
    reveal(MachineView::called_indirect);
    lemma_unsigned_32(slot);
}

/// A call goes on at the first instruction of the function. Its parameters are the values on top of
/// the stack, the last on top, and are its first locals; the others are zero. The caller goes on
/// behind the call when it returns. It traps exactly if there are as many frames as allowed.
pub proof fn law_a_call_enters_a_function(m: MachineView, index: u32, stack: Seq<Value>)
    requires
        calls(m, index, stack),
        is_defined(m.image, index),
        m.frames.len() <= u32::MAX,
        stack.len() <= u32::MAX,
        signature(m.image, index).params@.len() <= stack.len(),
    ensures
        ({
            let o = m.stepped();
            let params = signature(m.image, index).params@.len();
            let base = stack.len() - params;
            let body = m.image.functions@[index - m.image.host_imports@.len()];
            let f = frame(o.0);
            if m.frames.len() >= m.limits.max_call_depth {
                traps(o, TrapView::CallStackExhausted)
            } else {
                &&& leads_to(
                    o,
                    MachineView {
                        frames: past(m, stack).frames.push(f),
                        ..past(m, stack.take(base))
                    },
                )
                &&& f.function == index
                &&& f.pc == 0
                &&& f.labels.len() == 0
                &&& f.locals.len() == params + body.local_types@.len()
                &&& forall|i: int|
                    0 <= i < params ==> #[trigger] f.locals[i] == stack[base + i]
                &&& forall|i: int|
                    params <= i < f.locals.len() ==> is_zero(
                        body.local_types@[i - params].deep_view(),
                        #[trigger] f.locals[i],
                    )
            }
        }),
{
    lemma_calls(m, index, stack);
    reveal(MachineView::called);
    reveal(MachineView::entered);
}

/// Does a machine return from the function it is in, with this stack under what the instruction
/// itself takes?
pub open spec fn gives_back(n: MachineView, stack: Seq<Value>) -> bool {
    ||| executes(n, Operator::Return) && stack == n.stack
    ||| executes(n, Operator::End) && labels(n).len() == 0 && stack == n.stack
    ||| labels(n).len() <= u32::MAX && branches(n, labels(n).len() as u32, stack)
}

proof fn lemma_gives_back(n: MachineView, stack: Seq<Value>)
    requires
        gives_back(n, stack),
    ensures
        n.frames.len() > 0,
        n.stepped() == past(n, stack).left(),
{
    if executes(n, Operator::Return) && stack == n.stack {
        lemma_step(n, Operator::Return);
        reveal(MachineView::executed);
        reveal(MachineView::branching);
    } else if executes(n, Operator::End) && labels(n).len() == 0 && stack == n.stack {
        lemma_step(n, Operator::End);
        reveal(MachineView::executed);
        reveal(MachineView::branching);
    } else {
        lemma_branches(n, labels(n).len() as u32, stack);
        reveal(MachineView::branched);
    }
}

/// A function that returns, whatever it did in between: the caller goes on behind the call, with
/// the results in the place of the parameters.
pub proof fn law_a_function_returns_to_its_caller(
    m: MachineView,
    index: u32,
    under: Seq<Value>,
    n: MachineView,
    stack: Seq<Value>,
)
    requires
        calls(m, index, under),
        is_defined(m.image, index),
        m.frames.len() < m.limits.max_call_depth,
        under.len() <= u32::MAX,
        signature(m.image, index).params@.len() <= under.len(),
        gives_back(n, stack),
        n.frames.len() == m.stepped().0.frames.len(),
        n.frames.drop_last() == m.stepped().0.frames.drop_last(),
        frame(n).stack_base == frame(m.stepped().0).stack_base,
        frame(n).arity == frame(m.stepped().0).arity,
        stack.len() >= under.len() - signature(m.image, index).params@.len() + signature(
            m.image,
            index,
        ).results@.len(),
    ensures
        ({
            let (params, results) = (
                signature(m.image, index).params@.len(),
                signature(m.image, index).results@.len(),
            );
            leads_to(
                n.stepped(),
                MachineView {
                    frames: past(m, under).frames,
                    ..past(n, closed_up(stack, under.len() - params, results as int))
                },
            )
        }),
{
    lemma_calls(m, index, under);
    reveal(MachineView::called);
    reveal(MachineView::entered);
    lemma_gives_back(n, stack);
    reveal(MachineView::left);
    let (params, results) = (
        signature(m.image, index).params@.len(),
        signature(m.image, index).results@.len(),
    );
    assert(m.stepped().0.frames.drop_last() =~= past(m, under).frames);
    assert(past(n, stack).frames.drop_last() =~= past(m, under).frames);
    assert(unwound(stack, (under.len() - params) as nat, results) =~= closed_up(
        stack,
        under.len() - params,
        results as int,
    ));
}

/// When the outermost function returns, execution has finished.
pub proof fn law_the_last_return_finishes(n: MachineView, stack: Seq<Value>)
    requires
        gives_back(n, stack),
        n.frames.len() == 1,
        stack.len() >= frame(n).arity,
    ensures
        n.stepped().0.finished,
        n.stepped().1 == Ok::<Progress, TrapView>(Progress::Finished),
        n.stepped().0.output == n.output,
        n.stepped().0.memory == n.memory,
        n.stepped().0.stepped() == n.stepped(),
{
    lemma_gives_back(n, stack);
    reveal(MachineView::left);
}

/// `input` takes an address and a length, the length on top. It copies as much of the work unit's
/// input as there is and the length allows, and leaves the length of all of it. It traps exactly if
/// a byte it copies would be past the end of the memory.
pub proof fn law_input_is_copied(m: MachineView, index: u32, to: i32, len: i32) -> (all: i32)
    requires
        executes(m, Operator::Call { function_index: index }),
        index != m.image.charge,
        index < m.image.host_imports@.len(),
        m.image.host_imports@[index as int] == HostFunction::Input,
        m.stack.len() > 1,
        from_top(m, 0) == Value::I32(len),
        from_top(m, 1) == Value::I32(to),
        m.input.len() <= u32::MAX,
        m.memory.resident is None,
    ensures
        unsigned_32(all) == m.input.len(),
        ({
            let start = unsigned_32(to);
            let n = if unsigned_32(len) < m.input.len() {
                unsigned_32(len)
            } else {
                m.input.len() as int
            };
            let o = m.stepped();
            if n > 0 && start + n > m.memory.bytes.len() {
                traps(o, TrapView::MemoryOutOfBounds)
            } else {
                &&& past_memory(m, below(m, 2).push(Value::I32(all)), o)
                &&& is_as_large(o.0.memory, m.memory)
                &&& forall|i: int|
                    0 <= i < m.memory.bytes.len() ==> #[trigger] o.0.memory.bytes[i] == if start
                        <= i < start + n {
                        m.input[i - start]
                    } else {
                        m.memory.bytes[i]
                    }
            }
        }),
{
    lemma_step(m, Operator::Call { function_index: index });
    reveal(MachineView::executed);
    reveal(MachineView::called);
    reveal(MachineView::hosted);
    lemma_unsigned_32(to);
    lemma_unsigned_32(len);
    lemma_signed_32(m.input.len() as u32);
    assert(m.stack.drop_last().drop_last() =~= below(m, 2));
    assert((m.input.len() as u32) as i32 == m.input.len() as i32);
    (m.input.len() as u32) as i32
}

/// `output` takes an address and a length, the length on top. What is there becomes the answer, in
/// the place of an earlier one. It traps exactly if a byte of it is past the end of the memory.
pub proof fn law_output_is_answered(m: MachineView, index: u32, from: i32, len: i32)
    requires
        executes(m, Operator::Call { function_index: index }),
        index != m.image.charge,
        index < m.image.host_imports@.len(),
        m.image.host_imports@[index as int] == HostFunction::Output,
        m.stack.len() > 1,
        from_top(m, 0) == Value::I32(len),
        from_top(m, 1) == Value::I32(from),
        m.memory.resident is None,
    ensures
        ({
            let (start, n) = (unsigned_32(from), unsigned_32(len));
            let o = m.stepped();
            let answer = o.0.output;
            if start + n > m.memory.bytes.len() {
                traps(o, TrapView::MemoryOutOfBounds)
            } else {
                &&& leads_to(
                    o,
                    MachineView {
                        memory: o.0.memory,
                        output: answer,
                        output_digest: output_hash(answer),
                        ..past(m, below(m, 2))
                    },
                )
                &&& o.0.memory.bytes == m.memory.bytes
                &&& is_as_large(o.0.memory, m.memory)
                &&& answer.len() == n
                &&& forall|i: int|
                    0 <= i < n ==> #[trigger] answer[i] == m.memory.bytes[start + i]
            }
        }),
{
    lemma_step(m, Operator::Call { function_index: index });
    reveal(MachineView::executed);
    reveal(MachineView::called);
    reveal(MachineView::hosted);
    lemma_unsigned_32(from);
    lemma_unsigned_32(len);
    assert(m.stack.drop_last().drop_last() =~= below(m, 2));
}

/// A call of the meter takes a count of instructions. It adds them to what was consumed if that
/// stays within the ceiling, and traps, having consumed nothing, exactly if it does not.
pub proof fn law_a_charge_is_consumed(m: MachineView, count: i32)
    requires
        executes(m, Operator::Call { function_index: m.image.charge }),
        m.stack.len() > 0,
        from_top(m, 0) == Value::I32(count),
        m.meter.limit <= u64::MAX,
    ensures
        ({
            let o = m.stepped();
            let total = m.meter.consumed + unsigned_32(count);
            &&& total > m.meter.limit ==> traps(o, TrapView::OutOfFuel) && o.0.meter == m.meter
            &&& total <= m.meter.limit ==> o.1 is Ok && o.0.meter.consumed == total && o.0
                == (MachineView { meter: o.0.meter, ..past(m, below(m, 1)) })
        }),
{
    lemma_step(m, Operator::Call { function_index: m.image.charge });
    reveal(MachineView::executed);
    reveal(MachineView::called);
    reveal(MachineView::charged);
    lemma_unsigned_32(count);
    assert(m.stack.drop_last() =~= below(m, 1));
}

/// A branch past the function, or one that carries more values than there are, traps; and so does
/// a return of more values than there are.
pub proof fn law_what_cannot_be_carried_traps(n: MachineView, depth: u32, stack: Seq<Value>)
    requires
        branches(n, depth, stack),
    ensures
        depth > labels(n).len() ==> traps(n.stepped(), TrapView::StackUnderflow),
        depth < labels(n).len() && stack.len() < labels(n)[labels(n).len() - 1 - depth].arity
            ==> traps(n.stepped(), TrapView::StackUnderflow),
        depth == labels(n).len() && stack.len() < frame(n).arity ==> traps(
            n.stepped(),
            TrapView::StackUnderflow,
        ),
{
    lemma_branches(n, depth, stack);
    reveal(MachineView::branched);
    reveal(MachineView::left);
}

/// A call with too few values for its parameters traps.
pub proof fn law_a_call_takes_its_parameters(m: MachineView, index: u32, stack: Seq<Value>)
    requires
        calls(m, index, stack),
        is_defined(m.image, index),
        m.frames.len() < m.limits.max_call_depth,
        stack.len() < signature(m.image, index).params@.len(),
    ensures
        traps(m.stepped(), TrapView::StackUnderflow),
{
    lemma_calls(m, index, stack);
    reveal(MachineView::called);
    reveal(MachineView::entered);
}

/// A machine that has finished stays as it is. One that is past the end of a function, or in one
/// that there is not, traps.
pub proof fn law_a_machine_without_an_instruction_stops(m: MachineView)
    requires
        m.image.host_imports@.len() <= u32::MAX,
    ensures
        m.finished ==> m.stepped() == (m, Ok::<Progress, TrapView>(Progress::Finished)),
        !m.finished && m.frames.len() == 0 ==> traps(m.stepped(), TrapView::StackUnderflow),
        !m.finished && m.frames.len() > 0 && !(0 <= frame(m).function - m.image.host_imports@.len()
            < m.image.functions@.len()) ==> traps(m.stepped(), TrapView::UninitializedElement),
        !m.finished && m.frames.len() > 0 && 0 <= frame(m).function - m.image.host_imports@.len()
            < m.image.functions@.len() && frame(m).pc >= code(m).ops@.len() ==> traps(
            m.stepped(),
            TrapView::MemoryOutOfBounds,
        ),
{
}

} // verus!
