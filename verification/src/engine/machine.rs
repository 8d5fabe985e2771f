//! The interpreter: machine state, control flow, and the step function arbitration calls.
//!
//! # `step` is the primitive, `run` is a loop over it
//!
//! Executing exactly one instruction from a committed state *is* the operation dispute
//! arbitration performs. Building the loop on top of the step guarantees the two can never drift
//! apart.
//!
//! # Dispatch order
//!
//! Every operator is offered to [`numeric::apply`] first. What it declines is control flow,
//! variables, memory or calls, handled here. Anything still unmatched becomes
//! [`Trap::Unsupported`].
use crate::bytes::{get_le, put_le};
use crate::engine::execution::{
    Rebuilding, carried, lists, rebuilding, restored, started, table_of, with_data, with_segment,
    with_segments,
};
use crate::engine::image::{DataSegment, ElementSegment, Function, GlobalSpec, HostFunction, Image};
use crate::engine::memory::{Memory, MemoryView, PageSet, addressable, overwritten};
use crate::engine::numeric::{self, Kind, Trap, TrapView, matches_result};
use crate::engine::operator::{BlockType, Operator};
use crate::engine::semantics::{
    FrameView, MachineView, block_arity, load_shape, loaded, next_index, rendering, store_shape,
    unwound, zero_value,
};
use crate::engine::witness::{WitnessView, digest_frame};
use crate::fuel::{Charge, Fuel, FuelMeter};
use crate::hash::{Digest, same_optional_hash};
use crate::merkle::{self, PAGE_SIZE, PartialTree};
use crate::state::{
    FrameDigest, ProgramCounter, StateCommitment, Value, hash_frames, hash_output, hash_segments,
    hash_values,
};
use crate::wasm::{FuncType, ValType};

pub use crate::engine::witness::{FrameWitness, LabelWitness, PageWitness, Witness, WitnessError};

use vstd::prelude::*;

verus! {

/// Execution limits, taken from the work unit's manifest.
#[derive(Debug, Clone, Copy, PartialEq, Eq, Structural)]
pub struct Limits {
    /// Instruction ceiling. Exhausting it traps rather than running forever.
    pub fuel: u64,
    /// Snapshot every `2^interval` instructions. Lower means finer pre-committed bisection
    /// brackets and more overhead.
    pub snapshot_interval_log2: u8,
    /// Maximum call depth. Bounds interpreter memory against unbounded recursion, and does so
    /// identically on every machine.
    pub max_call_depth: u32,
}

impl Default for Limits {
    fn default() -> (r: Self)
        ensures
            r == (Limits {
                fuel: 0x1_0000_0000,
                snapshot_interval_log2: 16,
                max_call_depth: 1024,
            }),
    {
        Limits { fuel: 0x1_0000_0000, snapshot_interval_log2: 16, max_call_depth: 1024 }
    }
}

/// What a single [`Machine::step`] accomplished.
#[derive(Debug, Clone, Copy, PartialEq, Eq, Structural)]
#[must_use]
pub enum Progress {
    /// An instruction executed; execution continues.
    Continued,
    /// A snapshot boundary was crossed. The caller must record [`Machine::commit`] before
    /// stepping again, labelled with the enclosed fuel value.
    Snapshot {
        /// The fuel value this snapshot is labelled with.
        at: Fuel,
    },
    /// The entry function returned.
    Finished,
}

/// A committed point in an execution.
///
/// Fuel is charged per basic block, so it advances in jumps: dozens of instructions between two
/// `charge` calls all share one fuel value. The step index has no such problem, since
/// [`Machine::step`] executes exactly one instruction, so step *n* names exactly one state. Fuel
/// is the budget mechanism; the step index is the position mechanism.
#[derive(Debug, Clone, Copy, PartialEq, Eq)]
pub struct Snapshot {
    /// Instructions executed before this state.
    pub step: u64,
    /// Fuel consumed at this point. Carried for cost accounting, not for addressing.
    pub fuel: Fuel,
    /// The state root.
    pub root: Digest,
}

/// The artefact a worker submits: the answer, and a commitment to how it got there.
#[derive(Debug, Clone, PartialEq, Eq)]
pub struct Trace {
    /// State root before the first instruction.
    pub initial: Digest,
    /// Committed states at each snapshot boundary, strictly increasing in step index.
    pub snapshots: Vec<Snapshot>,
    /// State root after the last instruction.
    pub final_root: Digest,
    /// Instructions executed.
    pub steps: u64,
    /// Fuel consumed.
    pub fuel: Fuel,
    /// What the workload wrote through `cairn.output`.
    pub output: Vec<u8>,
}

/// One activation of a function.
#[derive(Debug)]
struct Frame {
    function: u32,
    pc: u32,
    locals: Vec<Value>,
    stack_base: u32,
    arity: u32,
    labels: Vec<LabelWitness>,
}

impl View for Frame {
    type V = FrameView;

    closed spec fn view(&self) -> FrameView {
        FrameView {
            function: self.function,
            pc: self.pc,
            locals: self.locals@,
            stack_base: self.stack_base,
            arity: self.arity,
            labels: self.labels@,
        }
    }
}

/// The frames, viewed.
spec fn frames_view(frames: Seq<Frame>) -> Seq<FrameView> {
    frames.map_values(|f: Frame| f@)
}

proof fn lemma_frames_push(frames: Seq<Frame>, f: Frame)
    ensures
        frames_view(frames.push(f)) == frames_view(frames).push(f@),
{
    assert(frames_view(frames.push(f)) =~= frames_view(frames).push(f@));
}

proof fn lemma_frames_pop(frames: Seq<Frame>)
    requires
        frames.len() > 0,
    ensures
        frames_view(frames.drop_last()) == frames_view(frames).drop_last(),
        frames_view(frames).last() == frames.last()@,
        frames_view(frames).len() == frames.len(),
{
    assert(frames_view(frames.drop_last()) =~= frames_view(frames).drop_last());
}

/// An interpreter over one instrumented module.
#[derive(Debug)]
pub struct Machine<'a> {
    image: &'a Image,
    limits: Limits,
    memory: Memory,
    globals: Vec<Value>,
    stack: Vec<Value>,
    frames: Vec<Frame>,
    table: Vec<Option<u32>>,
    meter: FuelMeter,
    input: Vec<u8>,
    output: Vec<u8>,
    /// The digest of the answer. A machine rebuilt from a witness has the digest only.
    output_digest: Digest,
    dropped_data: Vec<bool>,
    dropped_elements: Vec<bool>,
    /// Instructions executed. The coordinate dispute bisection searches.
    steps: u64,
    finished: bool,
}

impl<'a> View for Machine<'a> {
    type V = MachineView;

    closed spec fn view(&self) -> MachineView {
        MachineView {
            image: *self.image,
            limits: self.limits,
            memory: self.memory@,
            globals: self.globals@,
            stack: self.stack@,
            frames: frames_view(self.frames@),
            table: self.table@,
            meter: self.meter@,
            input: self.input@,
            output: self.output@,
            output_digest: self.output_digest,
            dropped_data: self.dropped_data@,
            dropped_elements: self.dropped_elements@,
            steps: self.steps,
            finished: self.finished,
        }
    }
}

/// Did an operation report what it should?
spec fn reports(r: Result<Progress, Trap>, s: Result<Progress, TrapView>) -> bool {
    match (r, s) {
        (Ok(p), Ok(q)) => p == q,
        (Err(t), Err(u)) => t@ == u,
        _ => false,
    }
}

/// Did an operation end as it should?
spec fn ends(r: Result<(), Trap>, s: Result<(), TrapView>) -> bool {
    match (r, s) {
        (Ok(_), Ok(_)) => true,
        (Err(t), Err(u)) => t@ == u,
        _ => false,
    }
}

fn index_after(i: u32) -> (r: u32)
    ensures
        r == next_index(i),
{
    i.saturating_add(1)
}

/// Keep the top `keep` values, over what lies below `height`.
fn unwind(stack: &mut Vec<Value>, height: u32, keep: u32)
    requires
        keep <= old(stack)@.len(),
    ensures
        final(stack)@ == unwound(old(stack)@, height as nat, keep as nat),
{
    let ghost before = stack@;
    let at: usize = stack.len() - keep as usize;
    let mut kept: Vec<Value> = stack.split_off(at);
    stack.truncate(height as usize);
    stack.append(&mut kept);
    assert(stack@ =~= unwound(before, height as nat, keep as nat));
}

/// The value a freshly declared local holds.
fn zero_of(ty: &ValType) -> (r: Value)
    ensures
        r == zero_value(ty.deep_view()),
{
    match ty {
        ValType::I64 => Value::I64(0),
        ValType::F32 => Value::F32(0),
        ValType::F64 => Value::F64(0),
        _ => Value::I32(0),
    }
}

/// A copy of values.
fn copy_values(v: &Vec<Value>) -> (r: Vec<Value>)
    ensures
        r@ == v@,
{
    vstd::slice::slice_to_vec(v.as_slice())
}

impl<'a> Machine<'a> {
    /// The memory is well-formed.
    pub closed spec fn wf(&self) -> bool {
        self.memory.wf()
    }

    /// Jump within the top frame.
    fn set_pc(&mut self, pc: u32)
        requires
            old(self)@.frames.len() > 0,
        ensures
            final(self)@ == old(self)@.jumped(pc),
            final(self).wf() == old(self).wf(),
            final(self).image == old(self).image,
    {
        let n: usize = self.frames.len();
        proof {
            lemma_frames_pop(self.frames@);
        }
        if let Some(mut f) = self.frames.pop() {
            f.pc = pc;
            proof {
                lemma_frames_push(self.frames@, f);
            }
            self.frames.push(f);
        }
    }

    fn pop_i32(&mut self) -> (r: Result<i32, Trap>)
        ensures
            final(self)@ == old(self)@.popped_i32().0,
            match (r, old(self)@.popped_i32().1) {
                (Ok(n), Ok(m)) => n == m,
                (Err(t), Err(u)) => t@ == u,
                _ => false,
            },
            final(self).wf() == old(self).wf(),
            final(self).image == old(self).image,
    {
        match numeric::pop_kind(&mut self.stack, Kind::I32) {
            Ok(Value::I32(n)) => Ok(n),
            Ok(_) => Err(Trap::TypeMismatch),
            Err(t) => Err(t),
        }
    }

    fn pop_any(&mut self) -> (r: Result<Value, Trap>)
        ensures
            final(self)@ == old(self)@.popped_any().0,
            matches_result(r, old(self)@.popped_any().1),
            final(self).wf() == old(self).wf(),
            final(self).image == old(self).image,
    {
        match self.stack.pop() {
            Some(v) => Ok(v),
            None => Err(Trap::StackUnderflow),
        }
    }

    /// Enter a construct.
    fn push_label(&mut self, label: LabelWitness)
        requires
            old(self)@.frames.len() > 0,
        ensures
            final(self)@ == old(self)@.labelled(label),
            final(self).wf() == old(self).wf(),
            final(self).image == old(self).image,
    {
        proof {
            lemma_frames_pop(self.frames@);
        }
        if let Some(mut f) = self.frames.pop() {
            f.labels.push(label);
            proof {
                lemma_frames_push(self.frames@, f);
            }
            self.frames.push(f);
        }
    }

    /// Parameter and result counts of a block type.
    fn arity_of(&self, ty: BlockType) -> (r: Option<(u32, u32)>)
        ensures
            r == block_arity(*self.image, ty),
    {
        match ty {
            BlockType::Empty => Some((0, 0)),
            BlockType::Value => Some((0, 1)),
            BlockType::FuncType(index) => {
                if (index as usize) < self.image.types.len() {
                    let f = &self.image.types[index as usize];
                    Some((f.params.len() as u32, f.results.len() as u32))
                } else {
                    None
                }
            },
        }
    }

    /// The label of a construct that starts at `pc`.
    fn make_label(&self, is_loop: bool, pc: u32, end: u32, params: u32, results: u32) -> (r:
        LabelWitness)
        ensures
            r == self@.label_for(is_loop, pc, end, params, results),
    {
        LabelWitness {
            // A loop branch re-enters the body; a block branch leaves it.
            branch_target: if is_loop {
                index_after(pc)
            } else {
                index_after(end)
            },
            // ...and carries the parameters back in rather than the results out.
            arity: if is_loop {
                params
            } else {
                results
            },
            stack_height: (self.stack.len() as u32).saturating_sub(params),
            end,
            is_loop,
        }
    }

    /// `block` and `loop`.
    fn enter_block(&mut self, f: &Function, pc: u32, ty: BlockType, is_loop: bool) -> (r: Result<
        Progress,
        Trap,
    >)
        requires
            old(self)@.frames.len() > 0,
        ensures
            final(self)@ == old(self)@.block(*f, pc, ty, is_loop).0,
            reports(r, old(self)@.block(*f, pc, ty, is_loop).1),
            final(self).wf() == old(self).wf(),
            final(self).image == old(self).image,
    {
        proof {
            reveal(MachineView::block);
        }
        if pc as usize >= f.control.len() {
            return Err(Trap::Unreachable);
        }
        let control = match f.control[pc as usize] {
            Some(c) => c,
            None => return Err(Trap::Unreachable),
        };
        let (params, results) = match self.arity_of(ty) {
            Some(a) => a,
            None => return Err(Trap::SignatureMismatch),
        };
        let label = self.make_label(is_loop, pc, control.end, params, results);
        self.push_label(label);
        Ok(Progress::Continued)
    }

    /// `if`.
    fn enter_if(&mut self, f: &Function, pc: u32, ty: BlockType) -> (r: Result<Progress, Trap>)
        requires
            old(self)@.frames.len() > 0,
        ensures
            final(self)@ == old(self)@.branch_if(*f, pc, ty).0,
            reports(r, old(self)@.branch_if(*f, pc, ty).1),
            final(self).wf() == old(self).wf(),
            final(self).image == old(self).image,
    {
        proof {
            reveal(MachineView::branch_if);
        }
        if pc as usize >= f.control.len() {
            return Err(Trap::Unreachable);
        }
        let control = match f.control[pc as usize] {
            Some(c) => c,
            None => return Err(Trap::Unreachable),
        };
        let (params, results) = match self.arity_of(ty) {
            Some(a) => a,
            None => return Err(Trap::SignatureMismatch),
        };
        let condition: i32 = match self.pop_i32() {
            Ok(n) => n,
            Err(t) => return Err(t),
        };
        let label = self.make_label(false, pc, control.end, params, results);
        if condition != 0 {
            self.push_label(label);
        } else if let Some(otherwise) = control.otherwise {
            self.push_label(label);
            self.set_pc(index_after(otherwise));
        } else {
            // No else branch and the condition is false: skip the construct entirely.
            self.set_pc(index_after(control.end));
        }
        Ok(Progress::Continued)
    }

    /// Return from the current function.
    fn leave(&mut self) -> (r: Result<Progress, Trap>)
        ensures
            final(self)@ == old(self)@.left().0,
            reports(r, old(self)@.left().1),
            final(self).wf() == old(self).wf(),
            final(self).image == old(self).image,
    {
        proof {
            reveal(MachineView::left);
        }
        if self.frames.len() == 0 {
            return Err(Trap::StackUnderflow);
        }
        proof {
            lemma_frames_pop(self.frames@);
        }
        let frame = match self.frames.pop() {
            Some(f) => f,
            None => return Err(Trap::StackUnderflow),
        };
        if self.stack.len() < frame.arity as usize {
            return Err(Trap::StackUnderflow);
        }
        unwind(&mut self.stack, frame.stack_base, frame.arity);
        if self.frames.len() == 0 {
            self.finished = true;
            return Ok(Progress::Finished);
        }
        Ok(Progress::Continued)
    }

    /// Take a branch to the label `depth` entries from the top.
    fn branch(&mut self, depth: u32) -> (r: Result<Progress, Trap>)
        ensures
            final(self)@ == old(self)@.branched(depth).0,
            reports(r, old(self)@.branched(depth).1),
            final(self).wf() == old(self).wf(),
            final(self).image == old(self).image,
    {
        proof {
            reveal(MachineView::branched);
        }
        let n: usize = self.frames.len();
        if n == 0 {
            return Err(Trap::StackUnderflow);
        }
        proof {
            lemma_frames_pop(self.frames@);
        }
        let count: usize = self.frames[n - 1].labels.len();
        if depth as usize == count {
            return self.leave();
        }
        if depth as usize > count {
            return Err(Trap::StackUnderflow);
        }
        let index: usize = count - 1 - depth as usize;
        let label: LabelWitness = self.frames[n - 1].labels[index];
        if self.stack.len() < label.arity as usize {
            return Err(Trap::StackUnderflow);
        }
        // Preserve the values the label carries, discard the rest of the block's stack.
        unwind(&mut self.stack, label.stack_height, label.arity);
        if let Some(mut f) = self.frames.pop() {
            // A loop is re-entered, so its label survives the branch; a block is left.
            f.labels.truncate(
                if label.is_loop {
                    index + 1
                } else {
                    index
                },
            );
            f.pc = label.branch_target;
            proof {
                lemma_frames_push(self.frames@, f);
            }
            self.frames.push(f);
        }
        Ok(Progress::Continued)
    }

    /// Enter a defined function: bind parameters as locals, zero the declared ones.
    fn enter(&mut self, function_index: u32) -> (r: Result<(), Trap>)
        ensures
            final(self)@ == old(self)@.entered(function_index).0,
            ends(r, old(self)@.entered(function_index).1),
            final(self).wf() == old(self).wf(),
            final(self).image == old(self).image,
    {
        proof {
            reveal(MachineView::entered);
        }
        assert(self.frames@.len() == self@.frames.len());
        if self.frames.len() as u32 >= self.limits.max_call_depth {
            return Err(Trap::CallStackExhausted);
        }
        let image = self.image;
        let signature = match image.signature(function_index) {
            Some(s) => s,
            None => return Err(Trap::SignatureMismatch),
        };
        let params: usize = signature.params.len();
        let results: u32 = signature.results.len() as u32;
        let body = match image.function(function_index) {
            Some(b) => b,
            None => return Err(Trap::UninitializedElement),
        };
        if self.stack.len() < params {
            return Err(Trap::StackUnderflow);
        }
        let split: usize = self.stack.len() - params;
        let ghost before = self.stack@;
        let mut locals: Vec<Value> = self.stack.split_off(split);
        let ghost zeros = body.local_types@.map_values(|t: ValType| zero_value(t.deep_view()));
        let mut i: usize = 0;
        assert(locals@ =~= before.skip(split as int) + zeros.take(0));
        while i < body.local_types.len()
            invariant
                i <= body.local_types@.len(),
                zeros == body.local_types@.map_values(|t: ValType| zero_value(t.deep_view())),
                locals@ == before.skip(split as int) + zeros.take(i as int),
            decreases body.local_types@.len() - i,
        {
            locals.push(zero_of(&body.local_types[i]));
            assert(locals@ =~= before.skip(split as int) + zeros.take(i + 1));
            i = i + 1;
        }
        assert(zeros.take(i as int) =~= zeros);
        let frame = Frame {
            function: function_index,
            pc: 0,
            locals,
            stack_base: self.stack.len() as u32,
            arity: results,
            labels: Vec::new(),
        };
        proof {
            lemma_frames_push(self.frames@, frame);
            assert(frame@.labels =~= Seq::empty());
            assert(self.stack@ =~= before.take(split as int));
        }
        self.frames.push(frame);
        Ok(())
    }

    /// The fuel meter and snapshot hook.
    ///
    /// Intercepted rather than dispatched as a host call: a workload that could reach this
    /// directly could lie about how much it had executed.
    fn charge(&mut self) -> (r: Result<Progress, Trap>)
        ensures
            final(self)@ == old(self)@.charged().0,
            reports(r, old(self)@.charged().1),
            final(self).wf() == old(self).wf(),
            final(self).image == old(self).image,
    {
        proof {
            reveal(MachineView::charged);
        }
        let n: i32 = match self.pop_i32() {
            Ok(n) => n,
            Err(t) => return Err(t),
        };
        match self.meter.charge(n as u32 as u64) {
            Charge::Continue => Ok(Progress::Continued),
            Charge::SnapshotDue { at } => Ok(Progress::Snapshot { at }),
            Charge::Exhausted { .. } => Err(Trap::OutOfFuel),
        }
    }

    fn pop_range(&mut self) -> (r: Result<(usize, u64), Trap>)
        ensures
            final(self)@ == old(self)@.popped_range().0,
            match (r, old(self)@.popped_range().1) {
                (Ok((n, a)), Ok((m, b))) => n == m && a == b,
                (Err(t), Err(u)) => t@ == u,
                _ => false,
            },
            final(self).wf() == old(self).wf(),
            final(self).image == old(self).image,
    {
        let len: i32 = match self.pop_i32() {
            Ok(n) => n,
            Err(t) => return Err(t),
        };
        let address: i32 = match self.pop_i32() {
            Ok(n) => n,
            Err(t) => return Err(t),
        };
        Ok((len as u32 as usize, address as u32 as u64))
    }

    fn host_call(&mut self, host: HostFunction) -> (r: Result<Progress, Trap>)
        requires
            old(self).wf(),
        ensures
            final(self)@ == old(self)@.hosted(host).0,
            reports(r, old(self)@.hosted(host).1),
            final(self).wf(),
            final(self).image == old(self).image,
    {
        proof {
            reveal(MachineView::hosted);
        }
        match host {
            HostFunction::Input => {
                let (len, address) = match self.pop_range() {
                    Ok(p) => p,
                    Err(t) => return Err(t),
                };
                let available: usize = if self.input.len() < len {
                    self.input.len()
                } else {
                    len
                };
                if available > 0 {
                    let part = vstd::slice::slice_subrange(self.input.as_slice(), 0, available);
                    assert(part@ =~= self.input@.take(available as int));
                    match self.memory.write(address, part) {
                        Ok(_) => {},
                        Err(t) => return Err(t),
                    }
                }
                // The full length is returned so a workload can size its buffer with a
                // zero-length probe.
                self.stack.push(Value::I32(self.input.len() as i32));
                Ok(Progress::Continued)
            },
            HostFunction::Output => {
                let (len, address) = match self.pop_range() {
                    Ok(p) => p,
                    Err(t) => return Err(t),
                };
                let bytes = match self.memory.read(address, len) {
                    Ok(b) => b,
                    Err(t) => return Err(t),
                };
                self.output_digest = hash_output(bytes.as_slice());
                self.output = bytes;
                Ok(Progress::Continued)
            },
            HostFunction::Charge => Err(Trap::Unreachable),
        }
    }

    /// Push a frame for `function_index`, or run the host function it names.
    fn call(&mut self, function_index: u32) -> (r: Result<Progress, Trap>)
        requires
            old(self).wf(),
        ensures
            final(self)@ == old(self)@.called(function_index).0,
            reports(r, old(self)@.called(function_index).1),
            final(self).wf(),
            final(self).image == old(self).image,
    {
        proof {
            reveal(MachineView::called);
        }
        if function_index == self.image.charge {
            return self.charge();
        }
        if let Some(host) = self.image.host_function(function_index) {
            return self.host_call(host);
        }
        match self.enter(function_index) {
            Ok(_) => Ok(Progress::Continued),
            Err(t) => Err(t),
        }
    }

    /// Call through the table.
    fn call_indirect(&mut self, type_index: u32) -> (r: Result<Progress, Trap>)
        requires
            old(self).wf(),
        ensures
            final(self)@ == old(self)@.called_indirect(type_index).0,
            reports(r, old(self)@.called_indirect(type_index).1),
            final(self).wf(),
            final(self).image == old(self).image,
    {
        proof {
            reveal(MachineView::called_indirect);
        }
        let slot: u32 = match self.pop_i32() {
            Ok(n) => n as u32,
            Err(t) => return Err(t),
        };
        if slot as usize >= self.table.len() {
            return Err(Trap::TableOutOfBounds);
        }
        let target: u32 = match self.table[slot as usize] {
            Some(f) => f,
            None => return Err(Trap::UninitializedElement),
        };
        let image = self.image;
        if type_index as usize >= image.types.len() {
            return Err(Trap::SignatureMismatch);
        }
        let actual = match image.signature(target) {
            Some(s) => s,
            None => return Err(Trap::SignatureMismatch),
        };
        if !image.types[type_index as usize].same(actual) {
            return Err(Trap::SignatureMismatch);
        }
        self.call(target)
    }

    /// `select`.
    fn select(&mut self) -> (r: Result<Progress, Trap>)
        ensures
            final(self)@ == old(self)@.selected().0,
            reports(r, old(self)@.selected().1),
            final(self).wf() == old(self).wf(),
            final(self).image == old(self).image,
    {
        proof {
            reveal(MachineView::selected);
        }
        let condition: i32 = match self.pop_i32() {
            Ok(n) => n,
            Err(t) => return Err(t),
        };
        let alternative = match self.pop_any() {
            Ok(v) => v,
            Err(t) => return Err(t),
        };
        let consequent = match self.pop_any() {
            Ok(v) => v,
            Err(t) => return Err(t),
        };
        self.stack.push(
            if condition != 0 {
                consequent
            } else {
                alternative
            },
        );
        Ok(Progress::Continued)
    }
}

impl<'a> Machine<'a> {
    /// Write a local of the current frame.
    fn set_local(&mut self, index: u32, v: Value) -> (r: Result<Progress, Trap>)
        ensures
            final(self)@ == old(self)@.local_set(index, v).0,
            reports(r, old(self)@.local_set(index, v).1),
            final(self).wf() == old(self).wf(),
            final(self).image == old(self).image,
    {
        let n: usize = self.frames.len();
        if n == 0 {
            return Err(Trap::StackUnderflow);
        }
        proof {
            lemma_frames_pop(self.frames@);
        }
        if index as usize >= self.frames[n - 1].locals.len() {
            return Err(Trap::StackUnderflow);
        }
        if let Some(mut f) = self.frames.pop() {
            f.locals.set(index as usize, v);
            proof {
                lemma_frames_push(self.frames@, f);
            }
            self.frames.push(f);
        }
        Ok(Progress::Continued)
    }

    /// The variable instructions.
    fn execute_variable(&mut self, op: &Operator) -> (r: Result<Progress, Trap>)
        ensures
            final(self)@ == old(self)@.variable(*op).0,
            reports(r, old(self)@.variable(*op).1),
            final(self).wf() == old(self).wf(),
            final(self).image == old(self).image,
    {
        proof {
            reveal(MachineView::variable);
        }
        match op {
            Operator::LocalGet { local_index } => {
                let n: usize = self.frames.len();
                if n == 0 {
                    return Err(Trap::StackUnderflow);
                }
                proof {
                    lemma_frames_pop(self.frames@);
                }
                if *local_index as usize >= self.frames[n - 1].locals.len() {
                    return Err(Trap::StackUnderflow);
                }
                let v: Value = self.frames[n - 1].locals[*local_index as usize];
                self.stack.push(v);
                Ok(Progress::Continued)
            },
            Operator::LocalSet { local_index } => {
                let v = match self.pop_any() {
                    Ok(v) => v,
                    Err(t) => return Err(t),
                };
                self.set_local(*local_index, v)
            },
            Operator::LocalTee { local_index } => {
                let n: usize = self.stack.len();
                if n == 0 {
                    return Err(Trap::StackUnderflow);
                }
                let v: Value = self.stack[n - 1];
                self.set_local(*local_index, v)
            },
            Operator::GlobalGet { global_index } => {
                if *global_index as usize >= self.globals.len() {
                    return Err(Trap::StackUnderflow);
                }
                let v: Value = self.globals[*global_index as usize];
                self.stack.push(v);
                Ok(Progress::Continued)
            },
            Operator::GlobalSet { global_index } => {
                let v = match self.pop_any() {
                    Ok(v) => v,
                    Err(t) => return Err(t),
                };
                if *global_index as usize >= self.globals.len() {
                    return Err(Trap::StackUnderflow);
                }
                self.globals.set(*global_index as usize, v);
                Ok(Progress::Continued)
            },
            _ => Err(Trap::Unreachable),
        }
    }

    /// Pop the base address and add the instruction's static offset.
    ///
    /// The sum is computed in 64 bits and checked, so a base near `u32::MAX` plus a large offset
    /// traps instead of wrapping into a valid-looking address.
    fn effective_address(&mut self, offset: u64) -> (r: Result<u64, Trap>)
        ensures
            final(self)@ == old(self)@.popped_address(offset).0,
            match (r, old(self)@.popped_address(offset).1) {
                (Ok(a), Ok(b)) => a == b,
                (Err(t), Err(u)) => t@ == u,
                _ => false,
            },
            final(self).wf() == old(self).wf(),
            final(self).image == old(self).image,
    {
        let base: u32 = match self.pop_i32() {
            Ok(n) => n as u32,
            Err(t) => return Err(t),
        };
        match (base as u64).checked_add(offset) {
            Some(a) => Ok(a),
            None => Err(Trap::MemoryOutOfBounds),
        }
    }

    /// Where a load reads and how many bytes.
    fn shape_of_load(op: &Operator) -> (r: Option<(u64, usize)>)
        ensures
            match (r, load_shape(*op)) {
                (Some((o, n)), Some((p, m))) => o == p && n == m && n <= 8,
                (None, None) => true,
                _ => false,
            },
    {
        match op {
            Operator::I32Load { offset } => Some((*offset, 4)),
            Operator::I64Load { offset } => Some((*offset, 8)),
            Operator::F32Load { offset } => Some((*offset, 4)),
            Operator::F64Load { offset } => Some((*offset, 8)),
            Operator::I32Load8S { offset } => Some((*offset, 1)),
            Operator::I32Load8U { offset } => Some((*offset, 1)),
            Operator::I32Load16S { offset } => Some((*offset, 2)),
            Operator::I32Load16U { offset } => Some((*offset, 2)),
            Operator::I64Load8S { offset } => Some((*offset, 1)),
            Operator::I64Load8U { offset } => Some((*offset, 1)),
            Operator::I64Load16S { offset } => Some((*offset, 2)),
            Operator::I64Load16U { offset } => Some((*offset, 2)),
            Operator::I64Load32S { offset } => Some((*offset, 4)),
            Operator::I64Load32U { offset } => Some((*offset, 4)),
            _ => None,
        }
    }

    /// The value a load makes of the number it read.
    ///
    /// The signed and unsigned forms differ only in how the narrow value widens, and confusing
    /// them is silent: both produce a plausible number.
    fn value_of_load(op: &Operator, n: u64) -> (r: Value)
        ensures
            r == loaded(*op, n),
    {
        match op {
            Operator::I32Load { .. } => Value::I32((n as u32) as i32),
            Operator::I64Load { .. } => Value::I64(n as i64),
            Operator::F32Load { .. } => Value::F32(n as u32),
            Operator::F64Load { .. } => Value::F64(n),
            Operator::I32Load8S { .. } => Value::I32(((n as u8) as i8) as i32),
            Operator::I32Load8U { .. } => Value::I32((n as u8) as i32),
            Operator::I32Load16S { .. } => Value::I32(((n as u16) as i16) as i32),
            Operator::I32Load16U { .. } => Value::I32((n as u16) as i32),
            Operator::I64Load8S { .. } => Value::I64(((n as u8) as i8) as i64),
            Operator::I64Load8U { .. } => Value::I64((n as u8) as i64),
            Operator::I64Load16S { .. } => Value::I64(((n as u16) as i16) as i64),
            Operator::I64Load16U { .. } => Value::I64((n as u16) as i64),
            Operator::I64Load32S { .. } => Value::I64(((n as u32) as i32) as i64),
            _ => Value::I64((n as u32) as i64),
        }
    }

    /// Where a store writes, what it takes and how many bytes of it.
    fn shape_of_store(op: &Operator) -> (r: Option<(u64, Kind, usize)>)
        ensures
            match (r, store_shape(*op)) {
                (Some((o, k, n)), Some((p, l, m))) => o == p && k == l && n == m && n <= 8,
                (None, None) => true,
                _ => false,
            },
    {
        match op {
            Operator::I32Store { offset } => Some((*offset, Kind::I32, 4)),
            Operator::I64Store { offset } => Some((*offset, Kind::I64, 8)),
            Operator::F32Store { offset } => Some((*offset, Kind::F32, 4)),
            Operator::F64Store { offset } => Some((*offset, Kind::F64, 8)),
            Operator::I32Store8 { offset } => Some((*offset, Kind::I32, 1)),
            Operator::I32Store16 { offset } => Some((*offset, Kind::I32, 2)),
            Operator::I64Store8 { offset } => Some((*offset, Kind::I64, 1)),
            Operator::I64Store16 { offset } => Some((*offset, Kind::I64, 2)),
            Operator::I64Store32 { offset } => Some((*offset, Kind::I64, 4)),
            _ => None,
        }
    }

    /// The load and store instructions, or an instruction that is not executed.
    ///
    /// Alignment hints are ignored on purpose: WebAssembly defines them as advisory, and an
    /// unaligned access is well-defined rather than a trap.
    fn load_or_store(&mut self, op: &Operator) -> (r: Result<Progress, Trap>)
        requires
            old(self).wf(),
        ensures
            match load_shape(*op) {
                Some((offset, width)) => final(self)@ == old(self)@.load(*op, offset, width).0
                    && reports(r, old(self)@.load(*op, offset, width).1),
                None => match store_shape(*op) {
                    Some((offset, kind, width)) => final(self)@ == old(self)@.store(
                        offset,
                        kind,
                        width,
                    ).0 && reports(r, old(self)@.store(offset, kind, width).1),
                    None => final(self)@ == old(self)@ && reports(
                        r,
                        Err(TrapView::Unsupported { operator: rendering(*op) }),
                    ),
                },
            },
            final(self).wf(),
            final(self).image == old(self).image,
    {
        proof {
            reveal(MachineView::load);
            reveal(MachineView::store);
        }
        if let Some((offset, width)) = Self::shape_of_load(op) {
            let address: u64 = match self.effective_address(offset) {
                Ok(a) => a,
                Err(t) => return Err(t),
            };
            let bytes = match self.memory.read(address, width) {
                Ok(b) => b,
                Err(t) => return Err(t),
            };
            let n: u64 = get_le(bytes.as_slice(), 0, width);
            assert(bytes@.subrange(0, width as int) =~= bytes@);
            self.stack.push(Self::value_of_load(op, n));
            return Ok(Progress::Continued);
        }
        if let Some((offset, kind, width)) = Self::shape_of_store(op) {
            let v = match numeric::pop_kind(&mut self.stack, kind) {
                Ok(v) => v,
                Err(t) => return Err(t),
            };
            let address: u64 = match self.effective_address(offset) {
                Ok(a) => a,
                Err(t) => return Err(t),
            };
            let mut bytes: Vec<u8> = Vec::new();
            // Narrow stores keep the low bytes and discard the rest.
            put_le(&mut bytes, v.payload(), width);
            assert(bytes@ =~= crate::bytes::le_bytes(v.payload_of() as nat, width as nat));
            return match self.memory.write(address, bytes.as_slice()) {
                Ok(_) => Ok(Progress::Continued),
                Err(t) => Err(t),
            };
        }
        Err(Trap::Unsupported { operator: Self::render(op) })
    }

    /// How an instruction that is not executed is rendered.
    fn render(op: &Operator) -> (r: String)
        ensures
            r@ == rendering(*op),
    {
        match op {
            Operator::RefNull { text } => text.clone(),
            Operator::RefIsNull { text } => text.clone(),
            Operator::TableGet { text } => text.clone(),
            Operator::TableSet { text } => text.clone(),
            Operator::TableSize { text } => text.clone(),
            Operator::TableGrow { text } => text.clone(),
            Operator::TableFill { text } => text.clone(),
            Operator::TableCopy { text } => text.clone(),
            Operator::TableInit { text } => text.clone(),
            Operator::RefFunc { text, .. } => text.clone(),
            Operator::ReturnCall { text, .. } => text.clone(),
            Operator::Other { text } => text.clone(),
            _ => {
                let r = String::new();
                assert(r@ =~= Seq::empty());
                r
            },
        }
    }

    /// `memory.init`.
    fn initialise(&mut self, index: u32) -> (r: Result<Progress, Trap>)
        requires
            old(self).wf(),
        ensures
            final(self)@ == old(self)@.initialised(index).0,
            reports(r, old(self)@.initialised(index).1),
            final(self).wf(),
            final(self).image == old(self).image,
    {
        proof {
            reveal(MachineView::initialised);
        }
        let (len, src) = match self.pop_range() {
            Ok(p) => p,
            Err(t) => return Err(t),
        };
        let dest: u64 = match self.pop_i32() {
            Ok(n) => n as u32 as u64,
            Err(t) => return Err(t),
        };
        if index as usize >= self.dropped_data.len() {
            return Err(Trap::MemoryOutOfBounds);
        }
        let image = self.image;
        let empty: Vec<u8> = Vec::new();
        let bytes: &Vec<u8> = if self.dropped_data[index as usize] {
            &empty
        } else {
            if index as usize >= image.data.len() {
                return Err(Trap::MemoryOutOfBounds);
            }
            match &image.data[index as usize] {
                DataSegment::Active { bytes, .. } => bytes,
                DataSegment::Passive { bytes } => bytes,
            }
        };
        if src + len as u64 > bytes.len() as u64 {
            return Err(Trap::MemoryOutOfBounds);
        }
        let at: usize = src as usize;
        let part = vstd::slice::slice_subrange(bytes.as_slice(), at, at + len);
        match self.memory.write(dest, part) {
            Ok(_) => Ok(Progress::Continued),
            Err(t) => Err(t),
        }
    }

    /// The bulk memory instructions.
    fn execute_bulk(&mut self, op: &Operator) -> (r: Result<Progress, Trap>)
        requires
            old(self).wf(),
        ensures
            final(self)@ == old(self)@.bulk(*op).0,
            reports(r, old(self)@.bulk(*op).1),
            final(self).wf(),
            final(self).image == old(self).image,
    {
        proof {
            reveal(MachineView::bulk);
        }
        match op {
            Operator::MemorySize => {
                self.stack.push(Value::I32(self.memory.size() as i32));
                Ok(Progress::Continued)
            },
            Operator::MemoryGrow => {
                let delta: u32 = match self.pop_i32() {
                    Ok(n) => n as u32,
                    Err(t) => return Err(t),
                };
                let previous: i32 = self.memory.grow(delta);
                self.stack.push(Value::I32(previous));
                Ok(Progress::Continued)
            },
            Operator::MemoryFill => {
                let len: u32 = match self.pop_i32() {
                    Ok(n) => n as u32,
                    Err(t) => return Err(t),
                };
                let byte: u8 = match self.pop_i32() {
                    Ok(n) => n as u8,
                    Err(t) => return Err(t),
                };
                let address: u64 = match self.pop_i32() {
                    Ok(n) => n as u32 as u64,
                    Err(t) => return Err(t),
                };
                match self.memory.fill(address, len as usize, byte) {
                    Ok(_) => Ok(Progress::Continued),
                    Err(t) => Err(t),
                }
            },
            Operator::MemoryCopy => {
                let (len, src) = match self.pop_range() {
                    Ok(p) => p,
                    Err(t) => return Err(t),
                };
                let dest: u64 = match self.pop_i32() {
                    Ok(n) => n as u32 as u64,
                    Err(t) => return Err(t),
                };
                match self.memory.copy(dest, src, len) {
                    Ok(_) => Ok(Progress::Continued),
                    Err(t) => Err(t),
                }
            },
            Operator::MemoryInit { data_index } => self.initialise(*data_index),
            Operator::DataDrop { data_index } => {
                if *data_index as usize >= self.dropped_data.len() {
                    return Err(Trap::MemoryOutOfBounds);
                }
                self.dropped_data.set(*data_index as usize, true);
                Ok(Progress::Continued)
            },
            Operator::ElemDrop { elem_index } => {
                if *elem_index as usize >= self.dropped_elements.len() {
                    return Err(Trap::TableOutOfBounds);
                }
                self.dropped_elements.set(*elem_index as usize, true);
                Ok(Progress::Continued)
            },
            _ => Err(Trap::Unreachable),
        }
    }

    /// The branch instructions.
    fn execute_branch(&mut self, op: &Operator) -> (r: Result<Progress, Trap>)
        ensures
            final(self)@ == old(self)@.branching(*op).0,
            reports(r, old(self)@.branching(*op).1),
            final(self).wf() == old(self).wf(),
            final(self).image == old(self).image,
    {
        proof {
            reveal(MachineView::branching);
        }
        match op {
            Operator::Br { relative_depth } => self.branch(*relative_depth),
            Operator::BrIf { relative_depth } => {
                let condition: i32 = match self.pop_i32() {
                    Ok(n) => n,
                    Err(t) => return Err(t),
                };
                if condition != 0 {
                    return self.branch(*relative_depth);
                }
                Ok(Progress::Continued)
            },
            Operator::BrTable { targets, default } => {
                let index: u32 = match self.pop_i32() {
                    Ok(n) => n as u32,
                    Err(t) => return Err(t),
                };
                let chosen: u32 = if (index as usize) < targets.len() {
                    targets[index as usize]
                } else {
                    *default
                };
                self.branch(chosen)
            },
            Operator::Else => {
                // Reached by falling out of the then-branch. Jump to the matching `end`, which
                // pops the label.
                let n: usize = self.frames.len();
                if n == 0 {
                    return Err(Trap::StackUnderflow);
                }
                proof {
                    lemma_frames_pop(self.frames@);
                }
                let count: usize = self.frames[n - 1].labels.len();
                if count == 0 {
                    return Err(Trap::StackUnderflow);
                }
                let end: u32 = self.frames[n - 1].labels[count - 1].end;
                self.set_pc(end);
                Ok(Progress::Continued)
            },
            Operator::End => {
                let n: usize = self.frames.len();
                if n > 0 {
                    proof {
                        lemma_frames_pop(self.frames@);
                    }
                    if self.frames[n - 1].labels.len() > 0 {
                        if let Some(mut f) = self.frames.pop() {
                            let _ = f.labels.pop();
                            proof {
                                lemma_frames_push(self.frames@, f);
                            }
                            self.frames.push(f);
                        }
                        return Ok(Progress::Continued);
                    }
                }
                // The function's own `end`.
                self.leave()
            },
            Operator::Return => self.leave(),
            _ => Err(Trap::Unreachable),
        }
    }

    /// Everything [`numeric::apply`] declined.
    fn execute_non_numeric(&mut self, op: &Operator, f: &Function, pc: u32) -> (r: Result<
        Progress,
        Trap,
    >)
        requires
            old(self).wf(),
            old(self)@.frames.len() > 0,
        ensures
            final(self)@ == old(self)@.executed(*op, *f, pc).0,
            reports(r, old(self)@.executed(*op, *f, pc).1),
            final(self).wf(),
            final(self).image == old(self).image,
    {
        proof {
            reveal(MachineView::executed);
        }
        match op {
            Operator::Unreachable => Err(Trap::Unreachable),
            Operator::Nop => Ok(Progress::Continued),
            Operator::Block { blockty } => self.enter_block(f, pc, *blockty, false),
            Operator::Loop { blockty } => self.enter_block(f, pc, *blockty, true),
            Operator::If { blockty } => self.enter_if(f, pc, *blockty),
            Operator::Else
            | Operator::End
            | Operator::Br { .. }
            | Operator::BrIf { .. }
            | Operator::BrTable { .. }
            | Operator::Return => self.execute_branch(op),
            Operator::Call { function_index } => self.call(*function_index),
            Operator::CallIndirect { type_index } => self.call_indirect(*type_index),
            Operator::Drop => match self.pop_any() {
                Ok(_) => Ok(Progress::Continued),
                Err(t) => Err(t),
            },
            Operator::Select | Operator::TypedSelect { .. } => self.select(),
            Operator::LocalGet { .. }
            | Operator::LocalSet { .. }
            | Operator::LocalTee { .. }
            | Operator::GlobalGet { .. }
            | Operator::GlobalSet { .. } => self.execute_variable(op),
            Operator::MemorySize
            | Operator::MemoryGrow
            | Operator::MemoryFill
            | Operator::MemoryCopy
            | Operator::MemoryInit { .. }
            | Operator::DataDrop { .. }
            | Operator::ElemDrop { .. } => self.execute_bulk(op),
            _ => self.load_or_store(op),
        }
    }

    /// Execute exactly one instruction.
    ///
    /// This is the operation arbitration performs, and the only place an instruction's meaning
    /// is defined.
    pub fn step(&mut self) -> (r: Result<Progress, Trap>)
        requires
            old(self).wf(),
        ensures
            final(self).wf(),
            final(self)@ == old(self)@.stepped().0,
            match (r, old(self)@.stepped().1) {
                (Ok(p), Ok(q)) => p == q,
                (Err(t), Err(u)) => t@ == u,
                _ => false,
            },
    {
        if self.finished {
            return Ok(Progress::Finished);
        }
        let image = self.image;
        let n: usize = self.frames.len();
        if n == 0 {
            return Err(Trap::StackUnderflow);
        }
        proof {
            lemma_frames_pop(self.frames@);
        }
        let function_index: u32 = self.frames[n - 1].function;
        let pc: u32 = self.frames[n - 1].pc;
        let function = match image.function(function_index) {
            Some(f) => f,
            None => return Err(Trap::UninitializedElement),
        };
        if pc as usize >= function.ops.len() {
            return Err(Trap::MemoryOutOfBounds);
        }
        let op = &function.ops[pc as usize];
        // Advance first so branches can overwrite the counter.
        self.set_pc(index_after(pc));
        // One instruction is about to execute, whatever it turns out to be.
        self.steps = self.steps.saturating_add(1);
        match numeric::apply(op, &mut self.stack) {
            Ok(true) => Ok(Progress::Continued),
            Ok(false) => self.execute_non_numeric(op, function, pc),
            Err(t) => Err(t),
        }
    }
}

/// Write one element segment into a table.
fn install_segment(table: &mut Vec<Option<u32>>, segment: &ElementSegment) -> (r: Result<(), Trap>)
    ensures
        ends(
            r,
            match with_segment(old(table)@, *segment) {
                Ok(_) => Ok(()),
                Err(t) => Err(t),
            },
        ),
        with_segment(old(table)@, *segment) matches Ok(t) ==> final(table)@ == t,
{
    if let ElementSegment::Active { offset, functions } = segment {
        let start: usize = *offset as usize;
        let ghost before = table@;
        let size: usize = table.len();
        let mut i: usize = 0;
        while i < functions.len()
            invariant
                start == *offset,
                size == before.len(),
                i <= functions@.len(),
                *segment == (ElementSegment::Active { offset: *offset, functions: *functions }),
                before == old(table)@,
                table@.len() == before.len(),
                i > 0 ==> start + i <= before.len(),
                forall|k: int|
                    0 <= k < before.len() ==> #[trigger] table@[k] == if start <= k < start + i {
                        Some(functions@[k - start])
                    } else {
                        before[k]
                    },
            decreases functions@.len() - i,
        {
            let slot: usize = match start.checked_add(i) {
                Some(slot) => slot,
                None => return Err(Trap::TableOutOfBounds),
            };
            if slot >= size {
                return Err(Trap::TableOutOfBounds);
            }
            table.set(slot, Some(functions[i]));
            i = i + 1;
        }
        proof {
            if functions@.len() > 0 {
                let after = with_segment(before, *segment)->Ok_0;
                assert(table@ =~= after);
            } else {
                assert(table@ =~= before);
            }
        }
    }
    Ok(())
}

/// The function table of a module.
///
/// No instruction the interpreter executes can change a table, so it is a function of the module
/// alone, which is why an adjudicator can rebuild it rather than being sent it.
fn install_table(image: &Image) -> (r: Result<Vec<Option<u32>>, Trap>)
    ensures
        match (r, table_of(*image)) {
            (Ok(a), Ok(b)) => a@ == b,
            (Err(t), Err(u)) => t@ == u,
            _ => false,
        },
{
    let size: u32 = match &image.table {
        Some(t) => t.initial,
        None => 0,
    };
    let mut table: Vec<Option<u32>> = Vec::new();
    let mut n: u32 = 0;
    while n < size
        invariant
            n <= size,
            table@ == Seq::new(n as nat, |i: int| None::<u32>),
        decreases size - n,
    {
        table.push(None);
        n = n + 1;
        assert(table@ =~= Seq::new(n as nat, |i: int| None::<u32>));
    }
    let ghost blank = table@;
    assert(blank =~= Seq::new(
        match image.table {
            Some(t) => t.initial as nat,
            None => 0nat,
        },
        |i: int| None,
    ));
    let mut k: usize = 0;
    assert(image.elements@.take(0) =~= Seq::empty());
    while k < image.elements.len()
        invariant
            k <= image.elements@.len(),
            with_segments(blank, image.elements@) == table_of(*image),
            with_segments(blank, image.elements@.take(k as int)) == Ok::<_, TrapView>(table@),
        decreases image.elements@.len() - k,
    {
        proof {
            assert(image.elements@.take(k + 1).drop_last() =~= image.elements@.take(k as int));
            assert(image.elements@.take(k + 1).last() == image.elements@[k as int]);
        }
        match install_segment(&mut table, &image.elements[k]) {
            Ok(_) => {},
            Err(t) => {
                proof {
                    lemma_failed_segment(blank, image.elements@, k + 1, t@);
                }
                return Err(t);
            },
        }
        k = k + 1;
    }
    assert(image.elements@.take(k as int) =~= image.elements@);
    Ok(table)
}

proof fn lemma_failed_segment(
    table: Seq<Option<u32>>,
    segments: Seq<ElementSegment>,
    k: int,
    t: TrapView,
)
    requires
        0 <= k <= segments.len(),
        with_segments(table, segments.take(k)) == Err::<Seq<Option<u32>>, _>(t),
    ensures
        with_segments(table, segments) == Err::<Seq<Option<u32>>, _>(t),
    decreases segments.len() - k,
{
    if k == segments.len() {
        assert(segments.take(k) =~= segments);
    } else {
        assert(segments.take(k + 1).drop_last() =~= segments.take(k));
        lemma_failed_segment(table, segments, k + 1, t);
    }
}

proof fn lemma_failed_data(memory: MemoryView, segments: Seq<DataSegment>, k: int, t: TrapView)
    requires
        0 <= k <= segments.len(),
        with_data(memory, segments.take(k)) == Err::<MemoryView, _>(t),
    ensures
        with_data(memory, segments) == Err::<MemoryView, _>(t),
    decreases segments.len() - k,
{
    if k == segments.len() {
        assert(segments.take(k) =~= segments);
    } else {
        assert(segments.take(k + 1).drop_last() =~= segments.take(k));
        lemma_failed_data(memory, segments, k + 1, t);
    }
}

/// A memory with the module's active data segments installed.
fn install_memory(image: &Image) -> (r: Result<Memory, Trap>)
    requires
        addressable(image.memory.initial_pages),
        addressable(image.memory.maximum_pages),
    ensures
        match (r, with_data(MemoryView::fresh(image.memory), image.data@)) {
            (Ok(m), Ok(v)) => m.wf() && m@ == v,
            (Err(t), Err(u)) => t@ == u,
            _ => false,
        },
{
    let mut memory = Memory::new(image.memory);
    let ghost fresh = memory@;
    let mut k: usize = 0;
    assert(image.data@.take(0) =~= Seq::empty());
    while k < image.data.len()
        invariant
            k <= image.data@.len(),
            memory.wf(),
            fresh == MemoryView::fresh(image.memory),
            with_data(fresh, image.data@.take(k as int)) == Ok::<_, TrapView>(memory@),
        decreases image.data@.len() - k,
    {
        proof {
            assert(image.data@.take(k + 1).drop_last() =~= image.data@.take(k as int));
            assert(image.data@.take(k + 1).last() == image.data@[k as int]);
        }
        if let DataSegment::Active { offset, bytes } = &image.data[k] {
            match memory.write(*offset as u64, bytes.as_slice()) {
                Ok(_) => {},
                Err(t) => {
                    proof {
                        lemma_failed_data(fresh, image.data@, k + 1, t@);
                    }
                    return Err(t);
                },
            }
        }
        k = k + 1;
    }
    assert(image.data@.take(k as int) =~= image.data@);
    Ok(memory)
}

/// So many flags, none of them set.
fn unset(n: usize) -> (r: Vec<bool>)
    ensures
        r@ == Seq::new(n as nat, |i: int| false),
{
    let mut flags: Vec<bool> = Vec::new();
    let mut i: usize = 0;
    while i < n
        invariant
            i <= n,
            flags@ == Seq::new(i as nat, |i: int| false),
        decreases n - i,
    {
        flags.push(false);
        i = i + 1;
        assert(flags@ =~= Seq::new(i as nat, |i: int| false));
    }
    flags
}

impl<'a> Machine<'a> {
    /// Instantiate a module: install memory, globals and the table, then enter the entry point.
    ///
    /// Traps if a data or element segment does not fit, or if the limits are unusable.
    pub fn new(image: &'a Image, input: Vec<u8>, limits: Limits) -> (r: Result<Self, Trap>)
        requires
            addressable(image.memory.initial_pages),
            addressable(image.memory.maximum_pages),
        ensures
            match (r, started(*image, input@, limits)) {
                (Ok(m), Ok(v)) => m.wf() && m@ == v,
                (Err(t), Err(u)) => t@ == u,
                _ => false,
            },
    {
        let meter = match FuelMeter::new(limits.fuel, limits.snapshot_interval_log2) {
            Ok(meter) => meter,
            Err(_) => return Err(Trap::OutOfFuel),
        };
        let memory = match install_memory(image) {
            Ok(memory) => memory,
            Err(t) => return Err(t),
        };
        let table = match install_table(image) {
            Ok(table) => table,
            Err(t) => return Err(t),
        };
        let mut globals: Vec<Value> = Vec::new();
        let mut i: usize = 0;
        while i < image.globals.len()
            invariant
                i <= image.globals@.len(),
                globals@ == image.globals@.take(i as int).map_values(|g: GlobalSpec| g.init),
            decreases image.globals@.len() - i,
        {
            globals.push(image.globals[i].init);
            i = i + 1;
            assert(globals@ =~= image.globals@.take(i as int).map_values(|g: GlobalSpec| g.init));
        }
        assert(image.globals@.take(i as int) =~= image.globals@);
        let empty: Vec<u8> = Vec::new();
        let output_digest: Digest = hash_output(empty.as_slice());
        assert(empty@ =~= Seq::empty());
        let mut machine = Machine {
            image,
            limits,
            memory,
            globals,
            stack: Vec::new(),
            frames: Vec::new(),
            table,
            meter,
            input,
            output: empty,
            output_digest,
            dropped_data: unset(image.data.len()),
            dropped_elements: unset(image.elements.len()),
            steps: 0,
            finished: false,
        };
        assert(machine@.stack =~= Seq::empty());
        assert(machine@.frames =~= Seq::empty());
        match machine.enter(image.entry) {
            Ok(_) => Ok(machine),
            Err(t) => Err(t),
        }
    }

    /// The commitment to the state right now.
    pub fn commit(&mut self) -> (r: StateCommitment)
        requires
            old(self).wf(),
        ensures
            final(self).wf(),
            final(self)@ == old(self)@.committed(),
            r == old(self)@.commitment(),
    {
        let memory: Digest = self.memory.commit();
        let mut frames: Vec<FrameDigest> = Vec::new();
        let mut i: usize = 0;
        while i < self.frames.len()
            invariant
                i <= self.frames@.len(),
                frames@ == self@.frame_digests().take(i as int),
            decreases self.frames@.len() - i,
        {
            let f = &self.frames[i];
            frames.push(
                digest_frame(f.function, f.pc, f.stack_base, f.arity, &f.locals, &f.labels),
            );
            i = i + 1;
            assert(frames_view(self.frames@)[i - 1] == f@);
            assert(frames@ =~= self@.frame_digests().take(i as int));
        }
        assert(self@.frame_digests().take(i as int) =~= self@.frame_digests());
        StateCommitment {
            memory,
            globals: hash_values(self.globals.as_slice()),
            operand_stack: hash_values(self.stack.as_slice()),
            call_stack: hash_frames(frames.as_slice()),
            segments: hash_segments(
                self.dropped_data.as_slice(),
                self.dropped_elements.as_slice(),
            ),
            output: self.output_digest,
            program_counter: self.program_counter(),
            fuel: self.meter.consumed(),
        }
    }

    /// Where execution has reached. Past the end this reports zero in both parts, as a witness of
    /// that state does, so a finished execution still has a well-defined counter.
    fn program_counter(&self) -> (r: ProgramCounter)
        ensures
            r == self@.position(),
    {
        let n: usize = self.frames.len();
        if n == 0 {
            ProgramCounter { function: 0, instruction: 0 }
        } else {
            proof {
                lemma_frames_pop(self.frames@);
            }
            ProgramCounter {
                function: self.frames[n - 1].function,
                instruction: self.frames[n - 1].pc,
            }
        }
    }

    /// Fuel consumed.
    #[must_use]
    pub fn fuel(&self) -> (r: Fuel)
        ensures
            r.0 == self@.meter.consumed,
    {
        self.meter.consumed()
    }

    /// Instructions executed.
    ///
    /// This is the coordinate dispute bisection addresses states by, because it names exactly
    /// one state per value where a fuel value does not. See [`Snapshot`].
    #[must_use]
    pub fn steps(&self) -> (r: u64)
        ensures
            r == self@.steps,
    {
        self.steps
    }

    /// What the workload has written through `cairn.output`.
    #[must_use]
    pub fn output(&self) -> (r: &[u8])
        ensures
            r@ == self@.output,
    {
        self.output.as_slice()
    }

    /// Whether the entry function has returned.
    #[must_use]
    pub fn is_finished(&self) -> (r: bool)
        ensures
            r == self@.finished,
    {
        self.finished
    }
}

/// A copy of frames.
fn copy_frames(frames: &Vec<Frame>) -> (r: Vec<Frame>)
    ensures
        frames_view(r@) == frames_view(frames@),
{
    let mut copies: Vec<Frame> = Vec::new();
    let mut i: usize = 0;
    while i < frames.len()
        invariant
            i <= frames@.len(),
            frames_view(copies@) == frames_view(frames@).take(i as int),
        decreases frames@.len() - i,
    {
        let f = &frames[i];
        let copy = Frame {
            function: f.function,
            pc: f.pc,
            locals: copy_values(&f.locals),
            stack_base: f.stack_base,
            arity: f.arity,
            labels: vstd::slice::slice_to_vec(f.labels.as_slice()),
        };
        proof {
            lemma_frames_push(copies@, copy);
            assert(frames_view(frames@)[i as int] == f@);
        }
        copies.push(copy);
        i = i + 1;
        assert(frames_view(copies@) =~= frames_view(frames@).take(i as int));
    }
    assert(frames_view(frames@).take(i as int) =~= frames_view(frames@));
    copies
}

impl<'a> Clone for Machine<'a> {
    fn clone(&self) -> (r: Self)
        ensures
            r@ == self@,
            self.wf() ==> r.wf(),
    {
        Machine {
            image: self.image,
            limits: self.limits,
            memory: self.memory.duplicate(),
            globals: copy_values(&self.globals),
            stack: copy_values(&self.stack),
            frames: copy_frames(&self.frames),
            table: vstd::slice::slice_to_vec(self.table.as_slice()),
            meter: self.meter,
            input: vstd::slice::slice_to_vec(self.input.as_slice()),
            output: vstd::slice::slice_to_vec(self.output.as_slice()),
            output_digest: self.output_digest,
            dropped_data: vstd::slice::slice_to_vec(self.dropped_data.as_slice()),
            dropped_elements: vstd::slice::slice_to_vec(self.dropped_elements.as_slice()),
            steps: self.steps,
            finished: self.finished,
        }
    }
}

impl<'a> Machine<'a> {
    /// The frames, as a witness carries them.
    fn frame_witnesses(&self) -> (r: Vec<FrameWitness>)
        ensures
            r@.map_values(|f: FrameWitness| f@) == self@.frames,
    {
        let mut frames: Vec<FrameWitness> = Vec::new();
        let mut i: usize = 0;
        while i < self.frames.len()
            invariant
                i <= self.frames@.len(),
                frames@.map_values(|f: FrameWitness| f@) == self@.frames.take(i as int),
            decreases self.frames@.len() - i,
        {
            let f = &self.frames[i];
            let ghost before = frames@;
            frames.push(
                FrameWitness {
                    function: f.function,
                    instruction: f.pc,
                    locals: copy_values(&f.locals),
                    stack_base: f.stack_base,
                    arity: f.arity,
                    labels: vstd::slice::slice_to_vec(f.labels.as_slice()),
                },
            );
            i = i + 1;
            proof {
                assert(self@.frames[i - 1] == f@);
                assert(frames@.map_values(|f: FrameWitness| f@) =~= before.map_values(
                    |f: FrameWitness| f@,
                ).push(f@));
                assert(self@.frames.take(i as int) =~= self@.frames.take(i - 1).push(f@));
            }
        }
        assert(self@.frames.take(i as int) =~= self@.frames);
        frames
    }

    /// Capture the current state, carrying the named memory pages with their proofs.
    ///
    /// Only meaningful on a machine backed by a full page tree: a machine already rebuilt from a
    /// witness cannot produce proofs it was never given, and returns an empty page list.
    #[must_use]
    pub fn witness(&mut self, pages: &[u32]) -> (r: Witness)
        requires
            old(self).wf(),
        ensures
            final(self).wf(),
            final(self)@ == old(self)@.committed(),
            r@ == old(self)@.witness(pages@),
    {
        // Flush any pending writes so the proofs are taken against the current root.
        let _ = self.memory.commit();
        let ghost now = self@;
        let mut kept: Vec<PageWitness> = Vec::new();
        let mut i: usize = 0;
        assert(pages@.take(0) =~= Seq::empty());
        assert(kept@.map_values(|p: PageWitness| p@) =~= Seq::empty());
        while i < pages.len()
            invariant
                i <= pages@.len(),
                self.wf(),
                self.memory.settled(),
                self@ == now,
                kept@.map_values(|p: PageWitness| p@) == carried(
                    now.memory,
                    pages@.take(i as int),
                ),
            decreases pages@.len() - i,
        {
            let index: u32 = pages[i];
            let ghost before = kept@;
            if let Some(bytes) = self.memory.page(index) {
                if let Some(path) = self.memory.path(index) {
                    kept.push(PageWitness { index, bytes, path });
                }
            }
            i = i + 1;
            proof {
                assert(pages@.take(i as int).drop_last() =~= pages@.take(i - 1));
                assert(pages@.take(i as int).last() == index);
                if kept@.len() > before.len() {
                    assert(kept@.map_values(|p: PageWitness| p@) =~= before.map_values(
                        |p: PageWitness| p@,
                    ).push(kept@.last()@));
                }
            }
        }
        assert(pages@.take(i as int) =~= pages@);
        let memory_root: Digest = self.memory.root();
        proof {
            lemma_carried_of_committed(old(self)@.memory, pages@);
        }
        Witness {
            output: self.output_digest,
            globals: copy_values(&self.globals),
            operand_stack: copy_values(&self.stack),
            frames: self.frame_witnesses(),
            memory_pages: self.memory.size(),
            memory_max_pages: self.memory.limit(),
            memory_root,
            pages: kept,
            dropped_data: vstd::slice::slice_to_vec(self.dropped_data.as_slice()),
            dropped_elements: vstd::slice::slice_to_vec(self.dropped_elements.as_slice()),
            fuel: self.meter.consumed(),
            steps: self.steps,
        }
    }

    /// Capture a witness sufficient to execute the next instruction.
    ///
    /// Which pages that instruction needs is not knowable in advance, so this copies the
    /// machine, steps the copy with access tracking on, and carries whatever it touched. The
    /// copy is discarded; this machine does not advance.
    #[must_use]
    pub fn witness_for_next_step(&mut self) -> (r: Witness)
        requires
            old(self).wf(),
        ensures
            final(self).wf(),
            final(self)@ == old(self)@.committed(),
            exists|pages: Seq<u32>| #[trigger]
                lists(pages, old(self)@.next_pages()) && r@ == old(self)@.witness(pages),
    {
        let mut probe = self.clone();
        probe.memory.note_accesses();
        assert(probe@ == old(self)@.noting());
        let _ = probe.step();
        let pages = probe.memory.noted();
        assert(lists(pages@, old(self)@.next_pages()));
        self.witness(pages.as_slice())
    }

    /// Run to completion, recording a state root at every snapshot boundary.
    ///
    /// One call executes at most `u64::MAX` instructions; the budget that matters is the fuel
    /// limit.
    pub fn run(&mut self) -> (r: Result<Trace, Trap>)
        requires
            old(self).wf(),
        ensures
            final(self).wf(),
            match (r, old(self)@.committed().ran(Seq::empty(), u64::MAX as nat)) {
                (Ok(trace), (m, Ok(snapshots))) => {
                    &&& trace.initial == old(self)@.root()
                    &&& trace.snapshots@ == snapshots
                    &&& trace.final_root == m.root()
                    &&& trace.steps == m.steps
                    &&& trace.fuel.0 == m.meter.consumed
                    &&& trace.output@ == m.output
                    &&& final(self)@ == (MachineView { output: Seq::empty(), ..m.committed() })
                },
                (Err(t), (m, Err(u))) => t@ == u && final(self)@ == m,
                _ => false,
            },
    {
        let initial: Digest = self.commit().root();
        let mut snapshots: Vec<Snapshot> = Vec::new();
        let mut left: u64 = u64::MAX;
        let ghost whole = old(self)@.committed().ran(Seq::empty(), u64::MAX as nat);
        assert(snapshots@ =~= Seq::empty());
        while left > 0
            invariant
                self.wf(),
                whole == old(self)@.committed().ran(Seq::empty(), u64::MAX as nat),
                whole == self@.ran(snapshots@, left as nat),
                initial == old(self)@.root(),
            decreases left,
        {
            let progress = match self.step() {
                Ok(p) => p,
                Err(t) => return Err(t),
            };
            match progress {
                Progress::Continued => {},
                Progress::Snapshot { at } => {
                    let step: u64 = self.steps;
                    let root: Digest = self.commit().root();
                    snapshots.push(Snapshot { step, fuel: at, root });
                },
                Progress::Finished => {
                    let ghost m = self@;
                    let final_root: Digest = self.commit().root();
                    let mut output: Vec<u8> = Vec::new();
                    std::mem::swap(&mut output, &mut self.output);
                    assert(self.output@ =~= Seq::empty());
                    return Ok(
                        Trace {
                            initial,
                            final_root,
                            steps: self.steps,
                            fuel: self.meter.consumed(),
                            output,
                            snapshots,
                        },
                    );
                },
            }
            left = left - 1;
        }
        Err(Trap::OutOfFuel)
    }
}

proof fn lemma_carried_of_committed(memory: MemoryView, pages: Seq<u32>)
    ensures
        carried(memory.committed(), pages) == carried(memory, pages),
    decreases pages.len(),
{
    if pages.len() > 0 {
        lemma_carried_of_committed(memory, pages.drop_last());
    }
}

/// So many zero bytes.
fn zeros(pages: u32) -> (r: Vec<u8>)
    requires
        addressable(pages),
    ensures
        r@ == Seq::new((pages * PAGE_SIZE) as nat, |i: int| 0u8),
{
    let r: Vec<u8> = vec![0u8; pages as usize * PAGE_SIZE];
    assert(r@ =~= Seq::new((pages * PAGE_SIZE) as nat, |i: int| 0u8));
    r
}

proof fn lemma_failed_page(w: WitnessView, k: nat, n: nat, e: WitnessError)
    requires
        k <= n,
        rebuilding(w, k) == Err::<Rebuilding, _>(e),
    ensures
        rebuilding(w, n) == Err::<Rebuilding, _>(e),
    decreases n - k,
{
    if k < n {
        lemma_failed_page(w, k, (n - 1) as nat, e);
    }
}

impl<'a> Machine<'a> {
    /// Rebuild a machine from a witness, ready to execute one instruction.
    ///
    /// Every page's proof is checked against the witness's memory root, and the reconstruction
    /// as a whole must reproduce that root. Passing both means the memory the machine will read
    /// is the memory the witness claims, for the pages it carries. Touching any other page traps
    /// with [`Trap::WitnessIncomplete`] rather than reading zeroes.
    ///
    /// A witness that carries no pages skips the second check, since there is nothing to
    /// reconstruct from.
    ///
    /// The ceiling of the memory and the ends of constructs are taken as the witness has them;
    /// [`crate::dispute::adjudicate`] holds them against the module first.
    ///
    /// `input` comes from the work unit rather than from the witness: taking it from a party
    /// would let them change what the disputed instruction reads.
    pub fn restore(image: &'a Image, witness: &Witness, input: Vec<u8>, limits: Limits) -> (r:
        Result<Self, WitnessError>)
        requires
            addressable(witness.memory_pages),
            addressable(witness.memory_max_pages),
        ensures
            match (r, restored(*image, witness@, input@, limits)) {
                (Ok(m), Ok(v)) => m.wf() && m@ == v,
                (Err(e), Err(f)) => e == f,
                _ => false,
            },
    {
        let ghost w = witness@;
        if witness.frames.len() == 0 {
            return Err(WitnessError::NoFrames);
        }
        let count: usize = if witness.memory_max_pages == 0 {
            1
        } else {
            witness.memory_max_pages as usize
        };
        let mut tree = PartialTree::new(count);
        let mut bytes: Vec<u8> = zeros(witness.memory_pages);
        let mut resident = PageSet::new();
        let mut i: usize = 0;
        while i < witness.pages.len()
            invariant
                w == witness@,
                i <= witness.pages@.len(),
                w.frames.len() > 0,
                addressable(witness.memory_pages),
                addressable(witness.memory_max_pages),
                tree.wf(),
                bytes@.len() == witness.memory_pages * PAGE_SIZE,
                rebuilding(w, i as nat) == Ok::<_, WitnessError>(
                    Rebuilding { tree: tree@, bytes: bytes@, resident: resident@ },
                ),
            decreases witness.pages@.len() - i,
        {
            let page = &witness.pages[i];
            assert(w.pages[i as int] == page@);
            if page.bytes.len() != PAGE_SIZE {
                let e = WitnessError::BadPageSize { page: page.index, got: page.bytes.len() };
                proof {
                    lemma_failed_page(w, (i + 1) as nat, w.pages.len(), e);
                }
                return Err(e);
            }
            let bound: bool = merkle::verify(
                &witness.memory_root,
                page.index as usize,
                page.bytes.as_slice(),
                page.path.as_slice(),
            );
            if !bound {
                let e = WitnessError::BadPageProof { page: page.index };
                proof {
                    lemma_failed_page(w, (i + 1) as nat, w.pages.len(), e);
                }
                return Err(e);
            }
            if tree.insert(
                page.index as usize,
                page.bytes.as_slice(),
                page.path.as_slice(),
            ).is_err() {
                let e = WitnessError::BadPageProof { page: page.index };
                proof {
                    lemma_failed_page(w, (i + 1) as nat, w.pages.len(), e);
                }
                return Err(e);
            }
            if page.index < witness.memory_pages {
                assert((page.index + 1) * PAGE_SIZE <= witness.memory_pages * PAGE_SIZE)
                    by (nonlinear_arith)
                    requires
                        page.index < witness.memory_pages,
                        PAGE_SIZE == 65536,
                ;
                let start: usize = page.index as usize * PAGE_SIZE;
                place(&mut bytes, start, page.bytes.as_slice());
            }
            resident.insert(page.index);
            i = i + 1;
        }
        if witness.pages.len() > 0 {
            let known: Option<Digest> = tree.root();
            if !same_optional_hash(&known, &Some(witness.memory_root)) {
                return Err(WitnessError::RootNotReconstructed);
            }
        }
        let meter = match FuelMeter::restore(
            witness.fuel,
            limits.fuel,
            limits.snapshot_interval_log2,
        ) {
            Ok(meter) => meter,
            Err(_) => return Err(WitnessError::BadLimits),
        };
        let table = match install_table(image) {
            Ok(table) => table,
            Err(_) => return Err(WitnessError::BadLimits),
        };
        let frames = take_frames(&witness.frames);
        let output: Vec<u8> = Vec::new();
        assert(output@ =~= Seq::empty());
        Ok(
            Machine {
                image,
                limits,
                memory: Memory::rebuilt(
                    bytes,
                    witness.memory_pages,
                    witness.memory_max_pages,
                    tree,
                    witness.memory_root,
                    resident,
                ),
                globals: copy_values(&witness.globals),
                stack: copy_values(&witness.operand_stack),
                frames,
                table,
                meter,
                input,
                // Only the digest of the answer is carried: no instruction reads it back.
                output,
                output_digest: witness.output,
                dropped_data: vstd::slice::slice_to_vec(witness.dropped_data.as_slice()),
                dropped_elements: vstd::slice::slice_to_vec(witness.dropped_elements.as_slice()),
                steps: witness.steps,
                finished: false,
            },
        )
    }
}

/// The frames a witness carries.
fn take_frames(frames: &Vec<FrameWitness>) -> (r: Vec<Frame>)
    ensures
        frames_view(r@) == frames@.map_values(|f: FrameWitness| f@),
{
    let mut taken: Vec<Frame> = Vec::new();
    let ghost all = frames@.map_values(|f: FrameWitness| f@);
    let mut i: usize = 0;
    while i < frames.len()
        invariant
            i <= frames@.len(),
            all == frames@.map_values(|f: FrameWitness| f@),
            frames_view(taken@) == all.take(i as int),
        decreases frames@.len() - i,
    {
        let f = &frames[i];
        let copy = Frame {
            function: f.function,
            pc: f.instruction,
            locals: copy_values(&f.locals),
            stack_base: f.stack_base,
            arity: f.arity,
            labels: vstd::slice::slice_to_vec(f.labels.as_slice()),
        };
        proof {
            lemma_frames_push(taken@, copy);
            assert(all[i as int] == f@);
        }
        taken.push(copy);
        i = i + 1;
        assert(frames_view(taken@) =~= all.take(i as int));
    }
    assert(all.take(i as int) =~= all);
    taken
}

/// Put bytes in the place of others.
fn place(bytes: &mut Vec<u8>, start: usize, data: &[u8])
    requires
        start + data@.len() <= old(bytes)@.len(),
    ensures
        final(bytes)@ == overwritten(old(bytes)@, start as int, data@),
{
    let ghost before = bytes@;
    let size: usize = bytes.len();
    let mut i: usize = 0;
    while i < data.len()
        invariant
            i <= data@.len(),
            size == before.len(),
            start + data@.len() <= before.len(),
            before == old(bytes)@,
            bytes@.len() == before.len(),
            forall|k: int|
                0 <= k < before.len() ==> #[trigger] bytes@[k] == if start <= k < start + i {
                    data@[k - start]
                } else {
                    before[k]
                },
        decreases data@.len() - i,
    {
        bytes.set(start + i, data[i]);
        i = i + 1;
    }
    assert(bytes@ =~= overwritten(before, start as int, data@));
}

} // verus!
