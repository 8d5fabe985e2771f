//! What an instruction means.
//!
//! A machine's state is a value, and executing one instruction is a function on such values.
//! Every part of the interpreter is stated against it, so there is one meaning of an
//! instruction, whether it is reached by running, by single-stepping or by rebuilding a state
//! from a witness.
//!
//! # Branching
//!
//! A `br` to a `block` or `if` label leaves that construct: the label is popped and execution
//! resumes past its `end`. A `br` to a `loop` label re-enters it: execution resumes just after
//! the `loop` instruction and the label stays. A block branch carries the block's *results*, a
//! loop branch carries its *parameters*. A `br` past every label returns from the function.
use crate::bytes::{le_bytes, le_value};
use crate::engine::image::{Function, HostFunction, Image};
use crate::engine::machine::{Limits, Progress};
use crate::engine::memory::MemoryView;
use crate::engine::numeric::{Kind, TrapView, applied, popped};
use crate::engine::operator::{BlockType, Operator};
use crate::engine::witness::LabelWitness;
use crate::fuel::{Charge, MeterState};
use crate::hash::Digest;
use crate::state::{
    FrameDigest, LabelDigest, ProgramCounter, StateCommitment, Value, frames_hash, labels_hash,
    output_hash, segments_hash, values_hash,
};
use crate::wasm::{ValType, ValTypeView};
use vstd::prelude::*;

verus! {

/// One activation of a function.
pub struct FrameView {
    /// The function.
    pub function: u32,
    /// The next instruction.
    pub pc: u32,
    /// Parameters followed by declared locals.
    pub locals: Seq<Value>,
    /// Operand-stack height at entry.
    pub stack_base: u32,
    /// Values the frame returns.
    pub arity: u32,
    /// The label stack, outermost first.
    pub labels: Seq<LabelWitness>,
}

/// The state of a machine.
pub struct MachineView {
    /// The module.
    pub image: Image,
    /// Execution limits.
    pub limits: Limits,
    /// Linear memory.
    pub memory: MemoryView,
    /// Globals.
    pub globals: Seq<Value>,
    /// The operand stack, bottom to top.
    pub stack: Seq<Value>,
    /// The call stack, outermost first.
    pub frames: Seq<FrameView>,
    /// The function table.
    pub table: Seq<Option<u32>>,
    /// The fuel meter.
    pub meter: MeterState,
    /// The work unit's input.
    pub input: Seq<u8>,
    /// What has been answered.
    pub output: Seq<u8>,
    /// The digest of what has been answered.
    pub output_digest: Digest,
    /// Which data segments have been dropped.
    pub dropped_data: Seq<bool>,
    /// Which element segments have been dropped.
    pub dropped_elements: Seq<bool>,
    /// Instructions executed.
    pub steps: u64,
    /// Has the entry function returned?
    pub finished: bool,
}

/// A state, and what an instruction that reached it reports.
pub type Outcome = (MachineView, Result<Progress, TrapView>);

/// Execution goes on.
pub open spec fn going(m: MachineView) -> Outcome {
    (m, Ok(Progress::Continued))
}

/// Execution stops here.
pub open spec fn trapped(m: MachineView, t: TrapView) -> Outcome {
    (m, Err(t))
}

/// One more, or the largest.
pub open spec fn next_index(i: u32) -> u32 {
    if i == u32::MAX {
        i
    } else {
        (i + 1) as u32
    }
}

/// A difference, or zero.
pub open spec fn less_or_zero(a: u32, b: u32) -> u32 {
    if a >= b {
        (a - b) as u32
    } else {
        0
    }
}

/// Keep the top `keep` values, over what lies below `height`.
pub open spec fn unwound(stack: Seq<Value>, height: nat, keep: nat) -> Seq<Value> {
    let rest = stack.take(stack.len() - keep);
    let base = if height < rest.len() {
        rest.take(height as int)
    } else {
        rest
    };
    base + stack.skip(stack.len() - keep)
}

/// The value a freshly declared local of a type holds.
pub open spec fn zero_value(ty: ValTypeView) -> Value {
    match ty {
        ValTypeView::I64 => Value::I64(0),
        ValTypeView::F32 => Value::F32(0),
        ValTypeView::F64 => Value::F64(0),
        _ => Value::I32(0),
    }
}

/// How many values a construct takes and leaves.
pub open spec fn block_arity(image: Image, ty: BlockType) -> Option<(u32, u32)> {
    match ty {
        BlockType::Empty => Some((0u32, 0u32)),
        BlockType::Value => Some((0u32, 1u32)),
        BlockType::FuncType(index) => if index < image.types@.len() {
            let f = image.types@[index as int];
            Some((f.params@.len() as u32, f.results@.len() as u32))
        } else {
            None
        },
    }
}

/// Where a load reads and how many bytes.
pub open spec fn load_shape(op: Operator) -> Option<(u64, nat)> {
    match op {
        Operator::I32Load { offset } => Some((offset, 4)),
        Operator::I64Load { offset } => Some((offset, 8)),
        Operator::F32Load { offset } => Some((offset, 4)),
        Operator::F64Load { offset } => Some((offset, 8)),
        Operator::I32Load8S { offset } => Some((offset, 1)),
        Operator::I32Load8U { offset } => Some((offset, 1)),
        Operator::I32Load16S { offset } => Some((offset, 2)),
        Operator::I32Load16U { offset } => Some((offset, 2)),
        Operator::I64Load8S { offset } => Some((offset, 1)),
        Operator::I64Load8U { offset } => Some((offset, 1)),
        Operator::I64Load16S { offset } => Some((offset, 2)),
        Operator::I64Load16U { offset } => Some((offset, 2)),
        Operator::I64Load32S { offset } => Some((offset, 4)),
        Operator::I64Load32U { offset } => Some((offset, 4)),
        _ => None,
    }
}

/// The value a load makes of the little-endian number it read.
pub open spec fn loaded(op: Operator, n: u64) -> Value {
    match op {
        Operator::I32Load { .. } => Value::I32((n as u32) as i32),
        Operator::I64Load { .. } => Value::I64(n as i64),
        Operator::F32Load { .. } => Value::F32(n as u32),
        Operator::F64Load { .. } => Value::F64(n),
        Operator::I32Load8S { .. } => Value::I32(((n as u8) as i8) as i32),
        Operator::I32Load8U { .. } => Value::I32((n as u8) as i32),
        Operator::I32Load16S { .. } => Value::I32(((n as u16) as i16) as i32),
        Operator::I32Load16U { .. } => Value::I32((n as u16) as i32),
        Operator::I64Load8S { .. } => Value::I64(((n as u8) as i8) as i64),
        Operator::I64Load8U { .. } => Value::I64((n as u8) as i64),
        Operator::I64Load16S { .. } => Value::I64(((n as u16) as i16) as i64),
        Operator::I64Load16U { .. } => Value::I64((n as u16) as i64),
        Operator::I64Load32S { .. } => Value::I64(((n as u32) as i32) as i64),
        _ => Value::I64((n as u32) as i64),
    }
}

/// Where a store writes, what it takes and how many bytes of it.
pub open spec fn store_shape(op: Operator) -> Option<(u64, Kind, nat)> {
    match op {
        Operator::I32Store { offset } => Some((offset, Kind::I32, 4)),
        Operator::I64Store { offset } => Some((offset, Kind::I64, 8)),
        Operator::F32Store { offset } => Some((offset, Kind::F32, 4)),
        Operator::F64Store { offset } => Some((offset, Kind::F64, 8)),
        Operator::I32Store8 { offset } => Some((offset, Kind::I32, 1)),
        Operator::I32Store16 { offset } => Some((offset, Kind::I32, 2)),
        Operator::I64Store8 { offset } => Some((offset, Kind::I64, 1)),
        Operator::I64Store16 { offset } => Some((offset, Kind::I64, 2)),
        Operator::I64Store32 { offset } => Some((offset, Kind::I64, 4)),
        _ => None,
    }
}

/// How an instruction that is not executed is rendered.
pub open spec fn rendering(op: Operator) -> Seq<char> {
    match op {
        Operator::RefNull { text } => text@,
        Operator::RefIsNull { text } => text@,
        Operator::TableGet { text } => text@,
        Operator::TableSet { text } => text@,
        Operator::TableSize { text } => text@,
        Operator::TableGrow { text } => text@,
        Operator::TableFill { text } => text@,
        Operator::TableCopy { text } => text@,
        Operator::TableInit { text } => text@,
        Operator::RefFunc { text, .. } => text@,
        Operator::ReturnCall { text, .. } => text@,
        Operator::Other { text } => text@,
        _ => Seq::empty(),
    }
}

impl MachineView {
    /// The frame being executed.
    pub open spec fn top(self) -> FrameView {
        self.frames.last()
    }

    /// The state with another top frame.
    pub open spec fn with_top(self, f: FrameView) -> MachineView {
        MachineView { frames: self.frames.drop_last().push(f), ..self }
    }

    /// The state with another operand stack.
    pub open spec fn with_stack(self, stack: Seq<Value>) -> MachineView {
        MachineView { stack, ..self }
    }

    /// The state with another memory.
    pub open spec fn with_memory(self, memory: MemoryView) -> MachineView {
        MachineView { memory, ..self }
    }

    /// The state with a value pushed.
    pub open spec fn pushed(self, v: Value) -> MachineView {
        self.with_stack(self.stack.push(v))
    }

    /// The state about to execute another instruction of the top frame.
    pub open spec fn jumped(self, pc: u32) -> MachineView {
        self.with_top(FrameView { pc, ..self.top() })
    }

    /// Taking a 32-bit integer off the stack.
    pub open spec fn popped_i32(self) -> (MachineView, Result<i32, TrapView>) {
        let (rest, v) = popped(self.stack, Kind::I32);
        (
            self.with_stack(rest),
            match v {
                Ok(Value::I32(n)) => Ok(n),
                Ok(_) => Err(TrapView::TypeMismatch),
                Err(t) => Err(t),
            },
        )
    }

    /// Entering a construct.
    pub open spec fn labelled(self, label: LabelWitness) -> MachineView {
        self.with_top(FrameView { labels: self.top().labels.push(label), ..self.top() })
    }

    /// The label of a construct that starts at `pc`.
    pub open spec fn label_for(
        self,
        is_loop: bool,
        pc: u32,
        end: u32,
        params: u32,
        results: u32,
    ) -> LabelWitness {
        LabelWitness {
            branch_target: if is_loop {
                next_index(pc)
            } else {
                next_index(end)
            },
            arity: if is_loop {
                params
            } else {
                results
            },
            stack_height: less_or_zero(self.stack.len() as u32, params),
            end,
            is_loop,
        }
    }

    /// `block` and `loop`.
    #[verifier::opaque]
    pub open spec fn block(self, f: Function, pc: u32, ty: BlockType, is_loop: bool) -> Outcome {
        if pc >= f.control@.len() || f.control@[pc as int] is None {
            trapped(self, TrapView::Unreachable)
        } else {
            match block_arity(self.image, ty) {
                None => trapped(self, TrapView::SignatureMismatch),
                Some((params, results)) => going(
                    self.labelled(
                        self.label_for(
                            is_loop,
                            pc,
                            f.control@[pc as int]->0.end,
                            params,
                            results,
                        ),
                    ),
                ),
            }
        }
    }

    /// `if`: enter the branch the condition picks, or skip the construct if it has no `else`.
    #[verifier::opaque]
    pub open spec fn branch_if(self, f: Function, pc: u32, ty: BlockType) -> Outcome {
        if pc >= f.control@.len() || f.control@[pc as int] is None {
            trapped(self, TrapView::Unreachable)
        } else {
            let control = f.control@[pc as int]->0;
            match block_arity(self.image, ty) {
                None => trapped(self, TrapView::SignatureMismatch),
                Some((params, results)) => match self.popped_i32() {
                    (m, Err(t)) => trapped(m, t),
                    (m, Ok(condition)) => {
                        let label = m.label_for(false, pc, control.end, params, results);
                        if condition != 0 {
                            going(m.labelled(label))
                        } else {
                            match control.otherwise {
                                Some(at) => going(m.labelled(label).jumped(next_index(at))),
                                None => going(m.jumped(next_index(control.end))),
                            }
                        }
                    },
                },
            }
        }
    }

    /// Returning from the current function.
    #[verifier::opaque]
    pub open spec fn left(self) -> Outcome {
        if self.frames.len() == 0 {
            trapped(self, TrapView::StackUnderflow)
        } else {
            let f = self.top();
            let m = MachineView { frames: self.frames.drop_last(), ..self };
            if m.stack.len() < f.arity {
                trapped(m, TrapView::StackUnderflow)
            } else {
                let m = m.with_stack(unwound(m.stack, f.stack_base as nat, f.arity as nat));
                if m.frames.len() == 0 {
                    (MachineView { finished: true, ..m }, Ok(Progress::Finished))
                } else {
                    going(m)
                }
            }
        }
    }

    /// Branching to the label `depth` entries from the top. Past every label is the function.
    #[verifier::opaque]
    pub open spec fn branched(self, depth: u32) -> Outcome {
        if self.frames.len() == 0 {
            trapped(self, TrapView::StackUnderflow)
        } else {
            let f = self.top();
            let n = f.labels.len();
            if depth == n {
                self.left()
            } else if depth > n {
                trapped(self, TrapView::StackUnderflow)
            } else {
                let index = n - 1 - depth;
                let label = f.labels[index];
                if self.stack.len() < label.arity {
                    trapped(self, TrapView::StackUnderflow)
                } else {
                    let kept = if label.is_loop {
                        index + 1
                    } else {
                        index
                    };
                    going(
                        self.with_stack(
                            unwound(self.stack, label.stack_height as nat, label.arity as nat),
                        ).with_top(
                            FrameView {
                                labels: f.labels.take(kept),
                                pc: label.branch_target,
                                ..f
                            },
                        ),
                    )
                }
            }
        }
    }

    /// Entering a defined function: parameters become locals, declared ones start at zero.
    #[verifier::opaque]
    pub open spec fn entered(self, index: u32) -> (MachineView, Result<(), TrapView>) {
        if self.frames.len() as u32 >= self.limits.max_call_depth {
            (self, Err(TrapView::CallStackExhausted))
        } else {
            match self.image.signature_of(index) {
                None => (self, Err(TrapView::SignatureMismatch)),
                Some(signature) => match self.image.defined(index) {
                    None => (self, Err(TrapView::UninitializedElement)),
                    Some(position) => {
                        let params = signature.params@.len();
                        let body = self.image.functions@[position];
                        if self.stack.len() < params {
                            (self, Err(TrapView::StackUnderflow))
                        } else {
                            let split = self.stack.len() - params;
                            let frame = FrameView {
                                function: index,
                                pc: 0,
                                locals: self.stack.skip(split) + body.local_types@.map_values(
                                    |t: ValType| zero_value(t.deep_view()),
                                ),
                                stack_base: split as u32,
                                arity: signature.results@.len() as u32,
                                labels: Seq::empty(),
                            };
                            (
                                MachineView {
                                    frames: self.frames.push(frame),
                                    ..self.with_stack(self.stack.take(split))
                                },
                                Ok(()),
                            )
                        }
                    },
                },
            }
        }
    }

    /// The fuel meter and snapshot hook.
    #[verifier::opaque]
    pub open spec fn charged(self) -> Outcome {
        match self.popped_i32() {
            (m, Err(t)) => trapped(m, t),
            (m, Ok(n)) => {
                let instructions = (n as u32) as nat;
                let after = MachineView { meter: m.meter.after(instructions), ..m };
                match m.meter.outcome(instructions) {
                    Charge::Continue => going(after),
                    Charge::SnapshotDue { at } => (after, Ok(Progress::Snapshot { at })),
                    Charge::Exhausted { .. } => trapped(after, TrapView::OutOfFuel),
                }
            },
        }
    }

    /// Taking a length and then an address off the stack.
    pub open spec fn popped_range(self) -> (MachineView, Result<(nat, u64), TrapView>) {
        match self.popped_i32() {
            (m, Err(t)) => (m, Err(t)),
            (m, Ok(len)) => match m.popped_i32() {
                (m, Err(t)) => (m, Err(t)),
                (m, Ok(address)) => (m, Ok(((len as u32) as nat, (address as u32) as u64))),
            },
        }
    }

    /// A host function.
    #[verifier::opaque]
    pub open spec fn hosted(self, host: HostFunction) -> Outcome {
        match host {
            HostFunction::Input => match self.popped_range() {
                (m, Err(t)) => trapped(m, t),
                (m, Ok((len, address))) => {
                    let available = if m.input.len() < len {
                        m.input.len()
                    } else {
                        len
                    };
                    let length = Value::I32(m.input.len() as i32);
                    if available == 0 {
                        going(m.pushed(length))
                    } else {
                        match m.memory.write(address, m.input.take(available as int)) {
                            (memory, Err(t)) => trapped(m.with_memory(memory), t),
                            (memory, Ok(_)) => going(m.with_memory(memory).pushed(length)),
                        }
                    }
                },
            },
            HostFunction::Output => match self.popped_range() {
                (m, Err(t)) => trapped(m, t),
                (m, Ok((len, address))) => match m.memory.read(address, len) {
                    (memory, Err(t)) => trapped(m.with_memory(memory), t),
                    (memory, Ok(bytes)) => going(
                        MachineView {
                            output: bytes,
                            output_digest: output_hash(bytes),
                            ..m.with_memory(memory)
                        },
                    ),
                },
            },
            HostFunction::Charge => trapped(self, TrapView::Unreachable),
        }
    }

    /// Calling a function index: the meter, a host function, or a defined one.
    #[verifier::opaque]
    pub open spec fn called(self, index: u32) -> Outcome {
        if index == self.image.charge {
            self.charged()
        } else if index < self.image.host_imports@.len() {
            self.hosted(self.image.host_imports@[index as int])
        } else {
            match self.entered(index) {
                (m, Ok(_)) => going(m),
                (m, Err(t)) => trapped(m, t),
            }
        }
    }

    /// Calling through the table.
    #[verifier::opaque]
    pub open spec fn called_indirect(self, type_index: u32) -> Outcome {
        match self.popped_i32() {
            (m, Err(t)) => trapped(m, t),
            (m, Ok(slot)) => {
                let slot = slot as u32;
                if slot >= m.table.len() {
                    trapped(m, TrapView::TableOutOfBounds)
                } else {
                    match m.table[slot as int] {
                        None => trapped(m, TrapView::UninitializedElement),
                        Some(target) => if type_index >= m.image.types@.len() {
                            trapped(m, TrapView::SignatureMismatch)
                        } else {
                            match m.image.signature_of(target) {
                                None => trapped(m, TrapView::SignatureMismatch),
                                Some(actual) => if m.image.types@[type_index as int].deep_view()
                                    != actual.deep_view() {
                                    trapped(m, TrapView::SignatureMismatch)
                                } else {
                                    m.called(target)
                                },
                            }
                        },
                    }
                }
            },
        }
    }

    /// Taking any value off the stack.
    pub open spec fn popped_any(self) -> (MachineView, Result<Value, TrapView>) {
        if self.stack.len() == 0 {
            (self, Err(TrapView::StackUnderflow))
        } else {
            (self.with_stack(self.stack.drop_last()), Ok(self.stack.last()))
        }
    }

    /// `select`.
    #[verifier::opaque]
    pub open spec fn selected(self) -> Outcome {
        match self.popped_i32() {
            (m, Err(t)) => trapped(m, t),
            (m, Ok(condition)) => match m.popped_any() {
                (m, Err(t)) => trapped(m, t),
                (m, Ok(alternative)) => match m.popped_any() {
                    (m, Err(t)) => trapped(m, t),
                    (m, Ok(consequent)) => going(
                        m.pushed(
                            if condition != 0 {
                                consequent
                            } else {
                                alternative
                            },
                        ),
                    ),
                },
            },
        }
    }

    /// Writing a local of the current frame.
    pub open spec fn local_set(self, index: u32, v: Value) -> Outcome {
        if self.frames.len() == 0 || index >= self.top().locals.len() {
            trapped(self, TrapView::StackUnderflow)
        } else {
            going(
                self.with_top(
                    FrameView {
                        locals: self.top().locals.update(index as int, v),
                        ..self.top()
                    },
                ),
            )
        }
    }

    /// The variable instructions.
    #[verifier::opaque]
    pub open spec fn variable(self, op: Operator) -> Outcome {
        match op {
            Operator::LocalGet { local_index } => if self.frames.len() == 0 || local_index
                >= self.top().locals.len() {
                trapped(self, TrapView::StackUnderflow)
            } else {
                going(self.pushed(self.top().locals[local_index as int]))
            },
            Operator::LocalSet { local_index } => match self.popped_any() {
                (m, Err(t)) => trapped(m, t),
                (m, Ok(v)) => m.local_set(local_index, v),
            },
            Operator::LocalTee { local_index } => if self.stack.len() == 0 {
                trapped(self, TrapView::StackUnderflow)
            } else {
                self.local_set(local_index, self.stack.last())
            },
            Operator::GlobalGet { global_index } => if global_index >= self.globals.len() {
                trapped(self, TrapView::StackUnderflow)
            } else {
                going(self.pushed(self.globals[global_index as int]))
            },
            Operator::GlobalSet { global_index } => match self.popped_any() {
                (m, Err(t)) => trapped(m, t),
                (m, Ok(v)) => if global_index >= m.globals.len() {
                    trapped(m, TrapView::StackUnderflow)
                } else {
                    going(
                        MachineView { globals: m.globals.update(global_index as int, v), ..m },
                    )
                },
            },
            _ => trapped(self, TrapView::Unreachable),
        }
    }

    /// Taking a base address off the stack and adding a static offset. The sum never wraps.
    pub open spec fn popped_address(self, offset: u64) -> (MachineView, Result<u64, TrapView>) {
        match self.popped_i32() {
            (m, Err(t)) => (m, Err(t)),
            (m, Ok(base)) => if (base as u32) + offset > u64::MAX {
                (m, Err(TrapView::MemoryOutOfBounds))
            } else {
                (m, Ok(((base as u32) + offset) as u64))
            },
        }
    }

    /// A load.
    #[verifier::opaque]
    pub open spec fn load(self, op: Operator, offset: u64, width: nat) -> Outcome {
        match self.popped_address(offset) {
            (m, Err(t)) => trapped(m, t),
            (m, Ok(address)) => match m.memory.read(address, width) {
                (memory, Err(t)) => trapped(m.with_memory(memory), t),
                (memory, Ok(bytes)) => going(
                    m.with_memory(memory).pushed(loaded(op, le_value(bytes) as u64)),
                ),
            },
        }
    }

    /// A store: the value comes off the stack first, then the address.
    #[verifier::opaque]
    pub open spec fn store(self, offset: u64, kind: Kind, width: nat) -> Outcome {
        let (rest, v) = popped(self.stack, kind);
        let m = self.with_stack(rest);
        match v {
            Err(t) => trapped(m, t),
            Ok(v) => match m.popped_address(offset) {
                (m, Err(t)) => trapped(m, t),
                (m, Ok(address)) => match m.memory.write(
                    address,
                    le_bytes(v.payload_of() as nat, width),
                ) {
                    (memory, Err(t)) => trapped(m.with_memory(memory), t),
                    (memory, Ok(_)) => going(m.with_memory(memory)),
                },
            },
        }
    }

    /// What a memory operation left, and how it ended.
    pub open spec fn remembered(self, r: (MemoryView, Result<(), TrapView>)) -> Outcome {
        match r {
            (memory, Err(t)) => trapped(self.with_memory(memory), t),
            (memory, Ok(_)) => going(self.with_memory(memory)),
        }
    }

    /// `memory.init`: copy part of a data segment. A dropped segment is empty.
    #[verifier::opaque]
    pub open spec fn initialised(self, index: u32) -> Outcome {
        match self.popped_range() {
            (m, Err(t)) => trapped(m, t),
            (m, Ok((len, src))) => match m.popped_i32() {
                (m, Err(t)) => trapped(m, t),
                (m, Ok(dest)) => if index >= m.dropped_data.len() {
                    trapped(m, TrapView::MemoryOutOfBounds)
                } else if !m.dropped_data[index as int] && index >= m.image.data@.len() {
                    trapped(m, TrapView::MemoryOutOfBounds)
                } else {
                    let bytes = if m.dropped_data[index as int] {
                        Seq::empty()
                    } else {
                        m.image.data@[index as int].content()
                    };
                    if src + len > bytes.len() {
                        trapped(m, TrapView::MemoryOutOfBounds)
                    } else {
                        m.remembered(
                            m.memory.write(
                                (dest as u32) as u64,
                                bytes.subrange(src as int, src + len),
                            ),
                        )
                    }
                },
            },
        }
    }

    /// The bulk memory instructions.
    #[verifier::opaque]
    pub open spec fn bulk(self, op: Operator) -> Outcome {
        match op {
            Operator::MemorySize => going(self.pushed(Value::I32(self.memory.pages as i32))),
            Operator::MemoryGrow => match self.popped_i32() {
                (m, Err(t)) => trapped(m, t),
                (m, Ok(delta)) => {
                    let (memory, previous) = m.memory.grow(delta as u32);
                    going(m.with_memory(memory).pushed(Value::I32(previous)))
                },
            },
            Operator::MemoryFill => match self.popped_i32() {
                (m, Err(t)) => trapped(m, t),
                (m, Ok(len)) => match m.popped_i32() {
                    (m, Err(t)) => trapped(m, t),
                    (m, Ok(byte)) => match m.popped_i32() {
                        (m, Err(t)) => trapped(m, t),
                        (m, Ok(address)) => m.remembered(
                            m.memory.fill(
                                (address as u32) as u64,
                                (len as u32) as nat,
                                byte as u8,
                            ),
                        ),
                    },
                },
            },
            Operator::MemoryCopy => match self.popped_range() {
                (m, Err(t)) => trapped(m, t),
                (m, Ok((len, src))) => match m.popped_i32() {
                    (m, Err(t)) => trapped(m, t),
                    (m, Ok(dest)) => m.remembered(
                        m.memory.copy((dest as u32) as u64, src, len),
                    ),
                },
            },
            Operator::MemoryInit { data_index } => self.initialised(data_index),
            Operator::DataDrop { data_index } => if data_index >= self.dropped_data.len() {
                trapped(self, TrapView::MemoryOutOfBounds)
            } else {
                going(
                    MachineView {
                        dropped_data: self.dropped_data.update(data_index as int, true),
                        ..self
                    },
                )
            },
            Operator::ElemDrop { elem_index } => if elem_index >= self.dropped_elements.len() {
                trapped(self, TrapView::TableOutOfBounds)
            } else {
                going(
                    MachineView {
                        dropped_elements: self.dropped_elements.update(elem_index as int, true),
                        ..self
                    },
                )
            },
            _ => trapped(self, TrapView::Unreachable),
        }
    }

    /// The branch instructions.
    #[verifier::opaque]
    pub open spec fn branching(self, op: Operator) -> Outcome {
        match op {
            Operator::Br { relative_depth } => self.branched(relative_depth),
            Operator::BrIf { relative_depth } => match self.popped_i32() {
                (m, Err(t)) => trapped(m, t),
                (m, Ok(condition)) => if condition != 0 {
                    m.branched(relative_depth)
                } else {
                    going(m)
                },
            },
            Operator::BrTable { targets, default } => match self.popped_i32() {
                (m, Err(t)) => trapped(m, t),
                (m, Ok(index)) => m.branched(
                    if (index as u32) < targets@.len() {
                        targets@[(index as u32) as int]
                    } else {
                        default
                    },
                ),
            },
            Operator::Else => if self.frames.len() == 0 || self.top().labels.len() == 0 {
                trapped(self, TrapView::StackUnderflow)
            } else {
                going(self.jumped(self.top().labels.last().end))
            },
            Operator::End => if self.frames.len() > 0 && self.top().labels.len() > 0 {
                going(
                    self.with_top(
                        FrameView { labels: self.top().labels.drop_last(), ..self.top() },
                    ),
                )
            } else {
                self.left()
            },
            Operator::Return => self.left(),
            _ => trapped(self, TrapView::Unreachable),
        }
    }

    /// Everything that is not numeric.
    #[verifier::opaque]
    pub open spec fn executed(self, op: Operator, f: Function, pc: u32) -> Outcome {
        match op {
            Operator::Unreachable => trapped(self, TrapView::Unreachable),
            Operator::Nop => going(self),
            Operator::Block { blockty } => self.block(f, pc, blockty, false),
            Operator::Loop { blockty } => self.block(f, pc, blockty, true),
            Operator::If { blockty } => self.branch_if(f, pc, blockty),
            Operator::Else
            | Operator::End
            | Operator::Br { .. }
            | Operator::BrIf { .. }
            | Operator::BrTable { .. }
            | Operator::Return => self.branching(op),
            Operator::Call { function_index } => self.called(function_index),
            Operator::CallIndirect { type_index } => self.called_indirect(type_index),
            Operator::Drop => match self.popped_any() {
                (m, Err(t)) => trapped(m, t),
                (m, Ok(_)) => going(m),
            },
            Operator::Select | Operator::TypedSelect { .. } => self.selected(),
            Operator::LocalGet { .. }
            | Operator::LocalSet { .. }
            | Operator::LocalTee { .. }
            | Operator::GlobalGet { .. }
            | Operator::GlobalSet { .. } => self.variable(op),
            Operator::MemorySize
            | Operator::MemoryGrow
            | Operator::MemoryFill
            | Operator::MemoryCopy
            | Operator::MemoryInit { .. }
            | Operator::DataDrop { .. }
            | Operator::ElemDrop { .. } => self.bulk(op),
            _ => match load_shape(op) {
                Some((offset, width)) => self.load(op, offset, width),
                None => match store_shape(op) {
                    Some((offset, kind, width)) => self.store(offset, kind, width),
                    None => trapped(self, TrapView::Unsupported { operator: rendering(op) }),
                },
            },
        }
    }

    /// The state in which an instruction executes: the counter is past it, and it is counted.
    pub open spec fn advanced(self) -> MachineView {
        MachineView {
            steps: if self.steps == u64::MAX {
                self.steps
            } else {
                (self.steps + 1) as u64
            },
            ..self.jumped(next_index(self.top().pc))
        }
    }

    /// Executing exactly one instruction.
    pub open spec fn stepped(self) -> Outcome {
        if self.finished {
            (self, Ok(Progress::Finished))
        } else if self.frames.len() == 0 {
            trapped(self, TrapView::StackUnderflow)
        } else {
            match self.image.defined(self.top().function) {
                None => trapped(self, TrapView::UninitializedElement),
                Some(position) => {
                    let f = self.image.functions@[position];
                    let pc = self.top().pc;
                    if pc >= f.ops@.len() {
                        trapped(self, TrapView::MemoryOutOfBounds)
                    } else {
                        let op = f.ops@[pc as int];
                        let m = self.advanced();
                        let (stack, handled) = applied(op, m.stack);
                        match handled {
                            Err(t) => trapped(m.with_stack(stack), t),
                            Ok(true) => going(m.with_stack(stack)),
                            Ok(false) => m.with_stack(stack).executed(op, f, pc),
                        }
                    }
                },
            }
        }
    }

    /// The frames, reduced to hashes.
    pub open spec fn frame_digests(self) -> Seq<FrameDigest> {
        self.frames.map_values(|f: FrameView| frame_digest(f))
    }

    /// Where execution has reached. Past the end, where no function is being executed, this is
    /// zero in both parts, so that a witness, which has no image, says the same.
    pub open spec fn position(self) -> ProgramCounter {
        if self.frames.len() == 0 {
            ProgramCounter { function: 0, instruction: 0 }
        } else {
            ProgramCounter { function: self.top().function, instruction: self.top().pc }
        }
    }

    /// The commitment to the whole state.
    pub open spec fn commitment(self) -> StateCommitment {
        StateCommitment {
            memory: self.memory.commitment(),
            globals: values_hash(self.globals),
            operand_stack: values_hash(self.stack),
            call_stack: frames_hash(self.frame_digests()),
            segments: segments_hash(self.dropped_data, self.dropped_elements),
            output: self.output_digest,
            program_counter: self.position(),
            fuel: crate::fuel::Fuel(self.meter.consumed as u64),
        }
    }

    /// The state once its memory's pending writes are part of the commitment.
    pub open spec fn committed(self) -> MachineView {
        self.with_memory(self.memory.committed())
    }

    /// The root of the state.
    pub open spec fn root(self) -> Digest {
        self.commitment().root_hash()
    }
}

/// A label, reduced to what a branch depends on.
pub open spec fn label_digest(l: LabelWitness) -> LabelDigest {
    LabelDigest {
        branch_target: l.branch_target,
        arity: l.arity,
        stack_height: l.stack_height,
        is_loop: l.is_loop,
    }
}

/// A frame, reduced to hashes.
pub open spec fn frame_digest(f: FrameView) -> FrameDigest {
    FrameDigest {
        function: f.function,
        instruction: f.pc,
        stack_base: f.stack_base,
        arity: f.arity,
        locals: values_hash(f.locals),
        labels: labels_hash(f.labels.map_values(|l: LabelWitness| label_digest(l))),
    }
}

} // verus!
