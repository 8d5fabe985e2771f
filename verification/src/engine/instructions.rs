//! What the instructions that are not numeric do to a machine.
//!
//! A step is described by what it changes: the operand stack, the memory, the locals and globals,
//! or which instruction comes next. Whatever is not mentioned stays as it was.
use crate::bytes::{
    le_bytes, le_value, lemma_le_bytes_len, lemma_le_value_bound, lemma_le_value_of_low_bytes,
    lemma_pow256_values, pow256,
};
use crate::engine::image::{DataSegment, Function};
use crate::engine::integers::{
    lemma_signed_32, lemma_signed_64, lemma_unsigned_32, lemma_unsigned_64, unsigned_32,
    unsigned_64,
};
use crate::engine::machine::Progress;
use crate::engine::memory::{MemoryView, overwritten};
use crate::engine::numeric::{Kind, TrapView, applied, kind_of, shape};
use crate::engine::operator::Operator;
use crate::engine::semantics::{FrameView, MachineView, Outcome, loaded};
use crate::state::Value;
use vstd::prelude::*;

verus! {

/// Is this the instruction a machine executes next?
pub open spec fn executes(m: MachineView, op: Operator) -> bool {
    &&& !m.finished
    &&& m.frames.len() > 0
    &&& 0 <= m.frames.last().function - m.image.host_imports@.len() < m.image.functions@.len()
    &&& m.frames.last().pc < code(m).ops@.len()
    &&& code(m).ops@[m.frames.last().pc as int] == op
    &&& m.frames.last().pc < u32::MAX
    &&& m.steps < u64::MAX
}

/// The function a machine is in.
pub open spec fn code(m: MachineView) -> Function {
    m.image.functions@[m.frames.last().function - m.image.host_imports@.len()]
}

/// The machine past one instruction of the same frame, with another operand stack.
pub open spec fn past(m: MachineView, stack: Seq<Value>) -> MachineView {
    let top = m.frames.last();
    MachineView {
        stack,
        steps: (m.steps + 1) as u64,
        frames: m.frames.drop_last().push(FrameView { pc: (top.pc + 1) as u32, ..top }),
        ..m
    }
}

/// Did a step end with this trap?
pub open spec fn traps(o: Outcome, t: TrapView) -> bool {
    o.1 == Err::<Progress, TrapView>(t)
}

/// Did a step go on, to this machine?
pub open spec fn leads_to(o: Outcome, m: MachineView) -> bool {
    o == (m, Ok::<Progress, TrapView>(Progress::Continued))
}

/// The stack without its top values.
pub open spec fn below(m: MachineView, n: int) -> Seq<Value> {
    m.stack.take(m.stack.len() - n)
}

/// A value from the top, counting from zero.
pub open spec fn from_top(m: MachineView, k: int) -> Value {
    m.stack[m.stack.len() - 1 - k]
}

pub proof fn lemma_step(m: MachineView, op: Operator)
    requires
        executes(m, op),
        shape(op) is NotNumeric,
    ensures
        m.stepped() == past(m, m.stack).executed(op, code(m), m.frames.last().pc),
        past(m, m.stack).frames.len() == m.frames.len(),
        past(m, m.stack).frames.last() == (FrameView {
            pc: (m.frames.last().pc + 1) as u32,
            ..m.frames.last()
        }),
        past(m, m.stack).frames.drop_last() == m.frames.drop_last(),
{
    assert(m.advanced() == past(m, m.stack));
    assert(past(m, m.stack).frames.drop_last() =~= m.frames.drop_last());
    assert(m.advanced().with_stack(m.stack) == past(m, m.stack));
}

/// The number that bytes of a memory are, the lowest first.
pub open spec fn number_at(bytes: Seq<u8>, at: int, width: nat) -> nat
    decreases width,
{
    if width == 0 {
        0
    } else {
        bytes[at] as nat + 0x100 * number_at(bytes, at + 1, (width - 1) as nat)
    }
}

proof fn lemma_number(bytes: Seq<u8>, at: int, width: nat)
    requires
        0 <= at,
        at + width <= bytes.len(),
    ensures
        number_at(bytes, at, width) == le_value(bytes.subrange(at, at + width)),
    decreases width,
{
    if width > 0 {
        lemma_number(bytes, at + 1, (width - 1) as nat);
        assert(bytes.subrange(at, at + width).drop_first() =~= bytes.subrange(at + 1, at + width));
    }
}

/// A number that is negative in its upper half.
pub open spec fn signed(n: nat, span: int) -> int {
    if 2 * n < span {
        n as int
    } else {
        n - span
    }
}

/// Where a load reads and how many bytes it does, or nothing if this is none.
pub open spec fn reads(op: Operator) -> Option<(u64, nat)> {
    match op {
        Operator::I32Load { offset } => Some((offset, 4)),
        Operator::I64Load { offset } => Some((offset, 8)),
        Operator::F32Load { offset } => Some((offset, 4)),
        Operator::F64Load { offset } => Some((offset, 8)),
        Operator::I32Load8S { offset } => Some((offset, 1)),
        Operator::I32Load8U { offset } => Some((offset, 1)),
        Operator::I32Load16S { offset } => Some((offset, 2)),
        Operator::I32Load16U { offset } => Some((offset, 2)),
        Operator::I64Load8S { offset } => Some((offset, 1)),
        Operator::I64Load8U { offset } => Some((offset, 1)),
        Operator::I64Load16S { offset } => Some((offset, 2)),
        Operator::I64Load16U { offset } => Some((offset, 2)),
        Operator::I64Load32S { offset } => Some((offset, 4)),
        Operator::I64Load32U { offset } => Some((offset, 4)),
        _ => None,
    }
}

/// Is this the value a load makes of a number?
pub open spec fn reads_as(op: Operator, n: nat, v: Value) -> bool {
    match op {
        Operator::I32Load { .. } => v matches Value::I32(a) && unsigned_32(a) == n,
        Operator::I64Load { .. } => v matches Value::I64(a) && unsigned_64(a) == n,
        Operator::F32Load { .. } => v matches Value::F32(a) && a == n,
        Operator::F64Load { .. } => v matches Value::F64(a) && a == n,
        Operator::I32Load8S { .. } => v matches Value::I32(a) && a == signed(n, 0x100),
        Operator::I32Load8U { .. } => v matches Value::I32(a) && a == n,
        Operator::I32Load16S { .. } => v matches Value::I32(a) && a == signed(n, 0x1_0000),
        Operator::I32Load16U { .. } => v matches Value::I32(a) && a == n,
        Operator::I64Load8S { .. } => v matches Value::I64(a) && a == signed(n, 0x100),
        Operator::I64Load8U { .. } => v matches Value::I64(a) && a == n,
        Operator::I64Load16S { .. } => v matches Value::I64(a) && a == signed(n, 0x1_0000),
        Operator::I64Load16U { .. } => v matches Value::I64(a) && a == n,
        Operator::I64Load32S { .. } => v matches Value::I64(a) && a == signed(n, 0x1_0000_0000),
        Operator::I64Load32U { .. } => v matches Value::I64(a) && a == n,
        _ => false,
    }
}

proof fn lemma_narrow_8(n: u64)
    by (bit_vector)
    requires
        n < 0x100,
    ensures
        n < 0x80 ==> ((n as u8) as i8) as int == n,
        n >= 0x80 ==> ((n as u8) as i8) as int == n - 0x100,
        (n as u8) as int == n,
{
}

proof fn lemma_narrow_16(n: u64)
    by (bit_vector)
    requires
        n < 0x1_0000,
    ensures
        n < 0x8000 ==> ((n as u16) as i16) as int == n,
        n >= 0x8000 ==> ((n as u16) as i16) as int == n - 0x1_0000,
        (n as u16) as int == n,
{
}

proof fn lemma_loaded(op: Operator, n: u64)
    requires
        reads(op) is Some,
        n < pow256((reads(op)->0).1),
    ensures
        reads_as(op, n as nat, loaded(op, n)),
{
    lemma_pow256_values();
    if n < 0x100 {
        lemma_narrow_8(n);
    }
    if n < 0x1_0000 {
        lemma_narrow_16(n);
    }
    if n < 0x1_0000_0000 {
        lemma_signed_32(n as u32);
        lemma_unsigned_32((n as u32) as i32);
    }
    lemma_signed_64(n);
    lemma_unsigned_64(n as i64);
}

/// A load takes an address off the stack, adds its offset without wrapping, and leaves the number
/// that the bytes there are: as many as its width, read as signed or unsigned, or as the bits of a
/// float. It traps exactly if one of them is past the end of the memory.
pub proof fn law_a_load_reads_a_number(m: MachineView, op: Operator, base: i32) -> (v: Value)
    requires
        executes(m, op),
        reads(op) is Some,
        m.stack.len() > 0,
        from_top(m, 0) == Value::I32(base),
        m.memory.resident is None,
        m.memory.bytes.len() <= u64::MAX,
    ensures
        ({
            let (offset, width) = reads(op)->0;
            let at = unsigned_32(base) + offset;
            let o = m.stepped();
            if at + width > m.memory.bytes.len() {
                traps(o, TrapView::MemoryOutOfBounds)
            } else {
                &&& leads_to(
                    o,
                    MachineView { memory: o.0.memory, ..past(m, below(m, 1).push(v)) },
                )
                &&& o.0.memory == (MemoryView { accessed: o.0.memory.accessed, ..m.memory })
                &&& reads_as(op, number_at(m.memory.bytes, at, width), v)
            }
        }),
{
    let (offset, width) = reads(op)->0;
    let at = unsigned_32(base) + offset;
    lemma_step(m, op);
    lemma_unsigned_32(base);
    let n = past(m, m.stack);
    assert(n.executed(op, code(m), m.frames.last().pc) == n.load(op, offset, width)) by {
        reveal(MachineView::executed);
    }
    reveal(MachineView::load);
    assert(m.stack.drop_last() =~= below(m, 1));
    if at + width <= m.memory.bytes.len() {
        let bytes = m.memory.bytes.subrange(at, at + width);
        lemma_number(m.memory.bytes, at, width);
        lemma_le_value_bound(bytes);
        lemma_pow256_values();
        lemma_loaded(op, le_value(bytes) as u64);
        loaded(op, le_value(bytes) as u64)
    } else {
        Value::I32(0)
    }
}

/// Where a store writes and how many bytes it does, or nothing if this is none.
pub open spec fn writes(op: Operator) -> Option<(u64, nat)> {
    match op {
        Operator::I32Store { offset } => Some((offset, 4)),
        Operator::I64Store { offset } => Some((offset, 8)),
        Operator::F32Store { offset } => Some((offset, 4)),
        Operator::F64Store { offset } => Some((offset, 8)),
        Operator::I32Store8 { offset } => Some((offset, 1)),
        Operator::I32Store16 { offset } => Some((offset, 2)),
        Operator::I64Store8 { offset } => Some((offset, 1)),
        Operator::I64Store16 { offset } => Some((offset, 2)),
        Operator::I64Store32 { offset } => Some((offset, 4)),
        _ => None,
    }
}

/// Is this a value a store takes?
pub open spec fn takes(op: Operator, v: Value) -> bool {
    match op {
        Operator::I32Store { .. } | Operator::I32Store8 { .. } | Operator::I32Store16 { .. } =>
            v is I32,
        Operator::I64Store { .. }
        | Operator::I64Store8 { .. }
        | Operator::I64Store16 { .. }
        | Operator::I64Store32 { .. } => v is I64,
        Operator::F32Store { .. } => v is F32,
        Operator::F64Store { .. } => v is F64,
        _ => false,
    }
}

/// A value as an unsigned number.
pub open spec fn number_of(v: Value) -> nat {
    match v {
        Value::I32(a) => unsigned_32(a) as nat,
        Value::I64(a) => unsigned_64(a) as nat,
        Value::F32(a) => a as nat,
        Value::F64(a) => a as nat,
    }
}

/// How many numbers there are of some bytes.
pub open spec fn span(width: nat) -> nat {
    if width == 1 {
        0x100
    } else if width == 2 {
        0x1_0000
    } else if width == 4 {
        0x1_0000_0000
    } else {
        0x1_0000_0000_0000_0000
    }
}

/// A store takes a value and then an address off the stack, and puts the low bytes of the value
/// there, the lowest first: as many as its width. No other byte changes. It traps exactly if one of
/// them is past the end of the memory.
pub proof fn law_a_store_writes_a_number(m: MachineView, op: Operator, base: i32, v: Value)
    requires
        executes(m, op),
        writes(op) is Some,
        takes(op, v),
        m.stack.len() > 1,
        from_top(m, 0) == v,
        from_top(m, 1) == Value::I32(base),
        m.memory.resident is None,
        m.memory.bytes.len() <= u64::MAX,
    ensures
        ({
            let (offset, width) = writes(op)->0;
            let at = unsigned_32(base) + offset;
            let o = m.stepped();
            if at + width > m.memory.bytes.len() {
                traps(o, TrapView::MemoryOutOfBounds)
            } else {
                &&& leads_to(o, MachineView { memory: o.0.memory, ..past(m, below(m, 2)) })
                &&& o.0.memory.bytes.len() == m.memory.bytes.len()
                &&& o.0.memory.pages == m.memory.pages
                &&& o.0.memory.max_pages == m.memory.max_pages
                &&& number_at(o.0.memory.bytes, at, width) == number_of(v) % span(width)
                &&& forall|i: int|
                    0 <= i < m.memory.bytes.len() && !(at <= i < at + width)
                        ==> #[trigger] o.0.memory.bytes[i] == m.memory.bytes[i]
            }
        }),
{
    let (offset, width) = writes(op)->0;
    let at = unsigned_32(base) + offset;
    lemma_step(m, op);
    lemma_unsigned_32(base);
    match v {
        Value::I32(a) => lemma_unsigned_32(a),
        Value::I64(a) => lemma_unsigned_64(a),
        _ => {},
    }
    let n = past(m, m.stack);
    let kind: Kind = kind_of(v);
    assert(n.executed(op, code(m), m.frames.last().pc) == n.store(offset, kind, width)) by {
        reveal(MachineView::executed);
    }
    reveal(MachineView::store);
    assert(m.stack.drop_last().drop_last() =~= below(m, 2));
    let data = le_bytes(number_of(v), width);
    assert(v.payload_of() == number_of(v));
    lemma_le_bytes_len(number_of(v), width);
    lemma_le_value_of_low_bytes(number_of(v), width);
    lemma_pow256_values();
    if at + width <= m.memory.bytes.len() {
        let bytes = overwritten(m.memory.bytes, at, data);
        lemma_number(bytes, at, width);
        assert(bytes.subrange(at, at + width) =~= data);
    }
}

/// A numeric instruction changes the operand stack and goes on, or stops with its trap.
pub proof fn law_a_numeric_instruction_changes_the_stack(m: MachineView, op: Operator)
    requires
        executes(m, op),
    ensures
        ({
            let (stack, r) = applied(op, m.stack);
            &&& r == Ok::<bool, TrapView>(true) ==> leads_to(m.stepped(), past(m, stack))
            &&& r matches Err(t) ==> traps(m.stepped(), t)
        }),
{
    assert(m.advanced() == past(m, m.stack));
    let stack = applied(op, m.stack).0;
    assert(m.advanced().with_stack(stack) == past(m, stack));
}

/// `nop` does nothing, `unreachable` traps, `drop` takes one value away, and `select` leaves the
/// first of two values if the condition over them is not zero, and the second if it is.
pub proof fn law_values_are_dropped_and_selected(m: MachineView, op: Operator, condition: i32)
    requires
        executes(m, op),
    ensures
        op is Nop ==> leads_to(m.stepped(), past(m, m.stack)),
        op is Unreachable ==> traps(m.stepped(), TrapView::Unreachable),
        op is Drop && m.stack.len() > 0 ==> leads_to(m.stepped(), past(m, below(m, 1))),
        (op is Select || op is TypedSelect) && m.stack.len() > 2 && from_top(m, 0) == Value::I32(
            condition,
        ) ==> leads_to(
            m.stepped(),
            past(
                m,
                below(m, 3).push(
                    if condition == 0 {
                        from_top(m, 1)
                    } else {
                        from_top(m, 2)
                    },
                ),
            ),
        ),
{
    if op is Nop || op is Unreachable || op is Drop || op is Select || op is TypedSelect {
        lemma_step(m, op);
        reveal(MachineView::executed);
        reveal(MachineView::selected);
        if m.stack.len() > 0 {
            assert(m.stack.drop_last() =~= below(m, 1));
        }
        if m.stack.len() > 2 {
            assert(m.stack.drop_last().drop_last().drop_last() =~= below(m, 3));
        }
    }
}

/// The locals of the frame a machine is in.
pub open spec fn locals(m: MachineView) -> Seq<Value> {
    m.frames.last().locals
}

/// The machine with other locals in the frame it is in.
pub open spec fn with_locals(m: MachineView, locals: Seq<Value>) -> MachineView {
    MachineView {
        frames: m.frames.drop_last().push(FrameView { locals, ..m.frames.last() }),
        ..m
    }
}

/// Reading a local leaves its value. Writing one takes a value off the stack, and `local.tee`
/// leaves it there; that local then has it and no other changes.
pub proof fn law_locals_hold_what_was_written(m: MachineView, i: u32)
    requires
        m.frames.len() > 0,
        i < locals(m).len(),
    ensures
        executes(m, Operator::LocalGet { local_index: i }) ==> leads_to(
            m.stepped(),
            past(m, m.stack.push(locals(m)[i as int])),
        ),
        executes(m, Operator::LocalSet { local_index: i }) && m.stack.len() > 0 ==> leads_to(
            m.stepped(),
            with_locals(past(m, below(m, 1)), locals(m).update(i as int, from_top(m, 0))),
        ),
        executes(m, Operator::LocalTee { local_index: i }) && m.stack.len() > 0 ==> leads_to(
            m.stepped(),
            with_locals(past(m, m.stack), locals(m).update(i as int, from_top(m, 0))),
        ),
{
    let (get, set, tee) = (
        Operator::LocalGet { local_index: i },
        Operator::LocalSet { local_index: i },
        Operator::LocalTee { local_index: i },
    );
    reveal(MachineView::executed);
    reveal(MachineView::variable);
    if executes(m, get) {
        lemma_step(m, get);
    }
    if executes(m, set) && m.stack.len() > 0 {
        lemma_step(m, set);
        assert(m.stack.drop_last() =~= below(m, 1));
        assert(past(m, below(m, 1)).frames == past(m, m.stack).frames);
    }
    if executes(m, tee) && m.stack.len() > 0 {
        lemma_step(m, tee);
    }
}

/// Reading a global leaves its value. Writing one takes a value off the stack; that global then
/// has it and no other changes.
pub proof fn law_globals_hold_what_was_written(m: MachineView, i: u32)
    requires
        i < m.globals.len(),
    ensures
        executes(m, Operator::GlobalGet { global_index: i }) ==> leads_to(
            m.stepped(),
            past(m, m.stack.push(m.globals[i as int])),
        ),
        executes(m, Operator::GlobalSet { global_index: i }) && m.stack.len() > 0 ==> leads_to(
            m.stepped(),
            MachineView {
                globals: m.globals.update(i as int, from_top(m, 0)),
                ..past(m, below(m, 1))
            },
        ),
{
    let (get, set) = (
        Operator::GlobalGet { global_index: i },
        Operator::GlobalSet { global_index: i },
    );
    reveal(MachineView::executed);
    reveal(MachineView::variable);
    if executes(m, get) {
        lemma_step(m, get);
    }
    if executes(m, set) && m.stack.len() > 0 {
        lemma_step(m, set);
        assert(m.stack.drop_last() =~= below(m, 1));
    }
}

/// The machine past one instruction that may have changed the memory.
pub open spec fn past_memory(m: MachineView, stack: Seq<Value>, o: Outcome) -> bool {
    leads_to(o, MachineView { memory: o.0.memory, ..past(m, stack) })
}

/// Are two memories of the same size and ceiling?
pub open spec fn is_as_large(a: MemoryView, b: MemoryView) -> bool {
    &&& a.bytes.len() == b.bytes.len()
    &&& a.pages == b.pages
    &&& a.max_pages == b.max_pages
}

/// `memory.size` leaves the number of pages. `memory.grow` takes a number of pages, and leaves how
/// many there were and that many more, of zeros, or `-1` and the memory as it was exactly if there
/// would be more than the ceiling.
pub proof fn law_memory_grows_by_pages(m: MachineView, delta: i32) -> (was: i32)
    ensures
        unsigned_32(was) == m.memory.pages,
        executes(m, Operator::MemorySize) ==> leads_to(
            m.stepped(),
            past(m, m.stack.push(Value::I32(was))),
        ),
        executes(m, Operator::MemoryGrow) && m.stack.len() > 0 && from_top(m, 0) == Value::I32(
            delta,
        ) ==> ({
            let o = m.stepped();
            let more = unsigned_32(delta);
            let now = o.0.memory;
            if m.memory.pages + more > m.memory.max_pages {
                leads_to(o, past(m, below(m, 1).push(Value::I32(-1i32))))
            } else {
                &&& past_memory(m, below(m, 1).push(Value::I32(was)), o)
                &&& now.pages == m.memory.pages + more
                &&& now.max_pages == m.memory.max_pages
                &&& now.bytes.len() == m.memory.bytes.len() + more * 65536
                &&& forall|i: int|
                    0 <= i < now.bytes.len() ==> #[trigger] now.bytes[i] == if i
                        < m.memory.bytes.len() {
                        m.memory.bytes[i]
                    } else {
                        0
                    }
            }
        }),
{
    let (size, grow) = (Operator::MemorySize, Operator::MemoryGrow);
    reveal(MachineView::executed);
    reveal(MachineView::bulk);
    lemma_signed_32(m.memory.pages);
    lemma_unsigned_32(delta);
    if executes(m, size) {
        lemma_step(m, size);
    }
    if executes(m, grow) && m.stack.len() > 0 {
        lemma_step(m, grow);
        assert(m.stack.drop_last() =~= below(m, 1));
        assert(past(m, below(m, 1)).with_memory(m.memory) == past(m, below(m, 1)));
    }
    m.memory.pages as i32
}

proof fn lemma_low_byte(n: i32)
    by (bit_vector)
    ensures
        (n as u8) as int == ((n as u32) % 256) as int,
{
}

/// `memory.fill` takes an address, a value and a length off the stack, the length on top, and puts
/// the low byte of the value in that many places. It traps exactly if one is past the end.
pub proof fn law_filling_repeats_a_byte(m: MachineView, at: i32, byte: i32, len: i32)
    requires
        executes(m, Operator::MemoryFill),
        m.stack.len() > 2,
        from_top(m, 0) == Value::I32(len),
        from_top(m, 1) == Value::I32(byte),
        from_top(m, 2) == Value::I32(at),
        m.memory.resident is None,
    ensures
        ({
            let (start, end) = (unsigned_32(at), unsigned_32(at) + unsigned_32(len));
            let o = m.stepped();
            if end > m.memory.bytes.len() {
                traps(o, TrapView::MemoryOutOfBounds)
            } else {
                &&& past_memory(m, below(m, 3), o)
                &&& is_as_large(o.0.memory, m.memory)
                &&& forall|i: int|
                    0 <= i < m.memory.bytes.len() ==> #[trigger] o.0.memory.bytes[i] == if start
                        <= i < end {
                        unsigned_32(byte) % 256
                    } else {
                        m.memory.bytes[i] as int
                    }
            }
        }),
{
    lemma_step(m, Operator::MemoryFill);
    reveal(MachineView::executed);
    reveal(MachineView::bulk);
    lemma_unsigned_32(at);
    lemma_unsigned_32(byte);
    lemma_unsigned_32(len);
    lemma_low_byte(byte);
    assert(m.stack.drop_last().drop_last().drop_last() =~= below(m, 3));
}

/// `memory.copy` takes where to, where from and a length off the stack, the length on top. The
/// bytes arrive as they were before the copy, also where the two overlap. It traps exactly if a
/// byte of either is past the end.
pub proof fn law_copying_moves_bytes(m: MachineView, to: i32, from: i32, len: i32)
    requires
        executes(m, Operator::MemoryCopy),
        m.stack.len() > 2,
        from_top(m, 0) == Value::I32(len),
        from_top(m, 1) == Value::I32(from),
        from_top(m, 2) == Value::I32(to),
        m.memory.resident is None,
    ensures
        ({
            let n = unsigned_32(len);
            let (start, source) = (unsigned_32(to), unsigned_32(from));
            let o = m.stepped();
            if start + n > m.memory.bytes.len() || source + n > m.memory.bytes.len() {
                traps(o, TrapView::MemoryOutOfBounds)
            } else {
                &&& past_memory(m, below(m, 3), o)
                &&& is_as_large(o.0.memory, m.memory)
                &&& forall|i: int|
                    0 <= i < m.memory.bytes.len() ==> #[trigger] o.0.memory.bytes[i] == if start
                        <= i < start + n {
                        m.memory.bytes[source + (i - start)]
                    } else {
                        m.memory.bytes[i]
                    }
            }
        }),
{
    lemma_step(m, Operator::MemoryCopy);
    reveal(MachineView::executed);
    reveal(MachineView::bulk);
    lemma_unsigned_32(to);
    lemma_unsigned_32(from);
    lemma_unsigned_32(len);
    assert(m.stack.drop_last().drop_last().drop_last() =~= below(m, 3));
}

/// What `memory.init` may read of a data segment: nothing once it was dropped.
pub open spec fn remaining(m: MachineView, index: u32) -> Seq<u8> {
    if m.dropped_data[index as int] {
        Seq::empty()
    } else {
        match m.image.data@[index as int] {
            DataSegment::Active { offset, bytes } => bytes@,
            DataSegment::Passive { bytes } => bytes@,
        }
    }
}

/// `memory.init` takes where to, where from and a length off the stack, the length on top, and
/// copies from a data segment. It traps exactly if a byte of either is past the end, and a segment
/// that was dropped has none. `data.drop` drops one and no other.
pub proof fn law_segments_are_copied_until_dropped(
    m: MachineView,
    index: u32,
    to: i32,
    from: i32,
    len: i32,
)
    requires
        index < m.dropped_data.len(),
        index < m.image.data@.len(),
    ensures
        executes(m, Operator::DataDrop { data_index: index }) ==> leads_to(
            m.stepped(),
            MachineView {
                dropped_data: m.dropped_data.update(index as int, true),
                ..past(m, m.stack)
            },
        ),
        executes(m, Operator::MemoryInit { data_index: index }) && m.stack.len() > 2 && from_top(
            m,
            0,
        ) == Value::I32(len) && from_top(m, 1) == Value::I32(from) && from_top(m, 2) == Value::I32(
            to,
        ) && m.memory.resident is None ==> ({
            let n = unsigned_32(len);
            let (start, source) = (unsigned_32(to), unsigned_32(from));
            let o = m.stepped();
            if start + n > m.memory.bytes.len() || source + n > remaining(m, index).len() {
                traps(o, TrapView::MemoryOutOfBounds)
            } else {
                &&& past_memory(m, below(m, 3), o)
                &&& is_as_large(o.0.memory, m.memory)
                &&& forall|i: int|
                    0 <= i < m.memory.bytes.len() ==> #[trigger] o.0.memory.bytes[i] == if start
                        <= i < start + n {
                        remaining(m, index)[source + (i - start)]
                    } else {
                        m.memory.bytes[i]
                    }
            }
        }),
{
    let (drop, init) = (
        Operator::DataDrop { data_index: index },
        Operator::MemoryInit { data_index: index },
    );
    reveal(MachineView::executed);
    reveal(MachineView::bulk);
    reveal(MachineView::initialised);
    lemma_unsigned_32(to);
    lemma_unsigned_32(from);
    lemma_unsigned_32(len);
    if executes(m, drop) {
        lemma_step(m, drop);
    }
    if executes(m, init) && m.stack.len() > 2 {
        lemma_step(m, init);
        assert(m.stack.drop_last().drop_last().drop_last() =~= below(m, 3));
    }
}

/// Does an instruction first take a 32-bit integer: an address, a condition, an index or a length?
pub open spec fn takes_integer(op: Operator) -> bool {
    reads(op) is Some || op is BrIf || op is BrTable || op is CallIndirect || op is Select || op
        is TypedSelect || op is MemoryGrow || op is MemoryFill || op is MemoryCopy || op
        is MemoryInit
}

/// An instruction that takes a 32-bit integer traps if the stack is empty or something else is on
/// top, and says which. So do a store and a `drop`.
pub proof fn law_wrong_operands_trap(m: MachineView, op: Operator)
    requires
        executes(m, op),
    ensures
        (takes_integer(op) || writes(op) is Some || op is Drop || op is LocalSet || op is LocalTee
            || op is GlobalSet) && m.stack.len() == 0 ==> traps(
            m.stepped(),
            TrapView::StackUnderflow,
        ),
        takes_integer(op) && m.stack.len() > 0 && !(from_top(m, 0) is I32) ==> traps(
            m.stepped(),
            TrapView::TypeMismatch,
        ),
        writes(op) is Some && m.stack.len() > 0 && !takes(op, from_top(m, 0)) ==> traps(
            m.stepped(),
            TrapView::TypeMismatch,
        ),
        writes(op) is Some && m.stack.len() == 1 && takes(op, from_top(m, 0)) ==> traps(
            m.stepped(),
            TrapView::StackUnderflow,
        ),
        writes(op) is Some && m.stack.len() > 1 && takes(op, from_top(m, 0)) && !(from_top(m, 1)
            is I32) ==> traps(m.stepped(), TrapView::TypeMismatch),
{
    if takes_integer(op) || writes(op) is Some || op is Drop || op is LocalSet || op is LocalTee
        || op is GlobalSet {
        lemma_step(m, op);
        reveal(MachineView::executed);
        reveal(MachineView::load);
        reveal(MachineView::store);
        reveal(MachineView::branching);
        reveal(MachineView::called_indirect);
        reveal(MachineView::selected);
        reveal(MachineView::variable);
        reveal(MachineView::bulk);
        reveal(MachineView::initialised);
    }
}

/// A variable that there is not traps, and so does a segment.
pub proof fn law_missing_variables_trap(m: MachineView, op: Operator)
    requires
        executes(m, op),
    ensures
        op matches Operator::LocalGet { local_index } && local_index >= locals(m).len() ==> traps(
            m.stepped(),
            TrapView::StackUnderflow,
        ),
        (op matches Operator::LocalSet { local_index } && local_index >= locals(m).len()) ==> traps(
            m.stepped(),
            TrapView::StackUnderflow,
        ),
        (op matches Operator::LocalTee { local_index } && local_index >= locals(m).len()) ==> traps(
            m.stepped(),
            TrapView::StackUnderflow,
        ),
        (op matches Operator::GlobalGet { global_index } && global_index >= m.globals.len())
            ==> traps(m.stepped(), TrapView::StackUnderflow),
        (op matches Operator::GlobalSet { global_index } && global_index >= m.globals.len())
            ==> traps(m.stepped(), TrapView::StackUnderflow),
        (op matches Operator::DataDrop { data_index } && data_index >= m.dropped_data.len())
            ==> traps(m.stepped(), TrapView::MemoryOutOfBounds),
        (op matches Operator::ElemDrop { elem_index } && elem_index >= m.dropped_elements.len())
            ==> traps(m.stepped(), TrapView::TableOutOfBounds),
        (op matches Operator::ElemDrop { elem_index } && elem_index < m.dropped_elements.len()
            ==> leads_to(
            m.stepped(),
            MachineView {
                dropped_elements: m.dropped_elements.update(op->elem_index as int, true),
                ..past(m, m.stack)
            },
        )),
{
    reveal(MachineView::executed);
    reveal(MachineView::variable);
    reveal(MachineView::bulk);
    if op is LocalGet || op is LocalSet || op is LocalTee || op is GlobalGet || op is GlobalSet
        || op is DataDrop || op is ElemDrop {
        lemma_step(m, op);
    }
}

/// What an instruction that is not executed is called.
pub open spec fn unsupported(op: Operator) -> Option<Seq<char>> {
    match op {
        Operator::RefNull { text } => Some(text@),
        Operator::RefIsNull { text } => Some(text@),
        Operator::TableGet { text } => Some(text@),
        Operator::TableSet { text } => Some(text@),
        Operator::TableSize { text } => Some(text@),
        Operator::TableGrow { text } => Some(text@),
        Operator::TableFill { text } => Some(text@),
        Operator::TableCopy { text } => Some(text@),
        Operator::TableInit { text } => Some(text@),
        Operator::RefFunc { text, .. } => Some(text@),
        Operator::ReturnCall { text, .. } => Some(text@),
        Operator::Other { text } => Some(text@),
        _ => None,
    }
}

/// An instruction that is not executed traps and is named.
pub proof fn law_unsupported_instructions_are_named(m: MachineView, op: Operator)
    requires
        executes(m, op),
        unsupported(op) is Some,
    ensures
        traps(m.stepped(), TrapView::Unsupported { operator: unsupported(op)->0 }),
{
    lemma_step(m, op);
    reveal(MachineView::executed);
}

} // verus!
