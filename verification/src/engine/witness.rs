//! What a worker submits, and what a party hands over when it is disputed.
use crate::engine::semantics::{FrameView, frame_digest, label_digest};
use crate::fuel::Fuel;
use crate::hash::Digest;
use crate::state::{
    FrameDigest, LabelDigest, ProgramCounter, StateCommitment, Value, frames_hash, hash_frames,
    hash_labels, hash_memory, hash_segments, hash_values, memory_hash, segments_hash, values_hash,
};
use crate::text;
use vstd::prelude::*;

verus! {

/// One label of a frame's label stack, as a witness carries it.
#[derive(Debug, Clone, Copy, PartialEq, Eq, Structural)]
pub struct LabelWitness {
    /// Instruction index a branch to this label jumps to.
    pub branch_target: u32,
    /// Values a branch to this label preserves.
    pub arity: u32,
    /// Operand-stack height a branch truncates to.
    pub stack_height: u32,
    /// Matching `end`, used when an `else` is reached by falling through.
    pub end: u32,
    /// Whether this label belongs to a `loop`, which a branch re-enters.
    pub is_loop: bool,
}

/// One call frame, as a witness carries it.
#[derive(Debug, Clone, PartialEq, Eq)]
pub struct FrameWitness {
    /// The function this frame is executing.
    pub function: u32,
    /// Instruction index to resume at.
    pub instruction: u32,
    /// Parameters followed by declared locals.
    pub locals: Vec<Value>,
    /// Operand-stack height this frame was entered at.
    pub stack_base: u32,
    /// Values the frame returns.
    pub arity: u32,
    /// The frame's label stack, outermost first.
    pub labels: Vec<LabelWitness>,
}

impl View for FrameWitness {
    type V = FrameView;

    open spec fn view(&self) -> FrameView {
        FrameView {
            function: self.function,
            pc: self.instruction,
            locals: self.locals@,
            stack_base: self.stack_base,
            arity: self.arity,
            labels: self.labels@,
        }
    }
}

/// One memory page and the proof binding it to the memory root.
#[derive(Debug, Clone, PartialEq, Eq)]
pub struct PageWitness {
    /// Page index.
    pub index: u32,
    /// Exactly [`PAGE_SIZE`](crate::merkle::PAGE_SIZE) bytes.
    pub bytes: Vec<u8>,
    /// Sibling path from this page's leaf to the memory root.
    pub path: Vec<Digest>,
}

/// The value of a [`PageWitness`].
pub struct PageView {
    /// Page index.
    pub index: u32,
    /// The page.
    pub bytes: Seq<u8>,
    /// Sibling path.
    pub path: Seq<Digest>,
}

impl View for PageWitness {
    type V = PageView;

    open spec fn view(&self) -> PageView {
        PageView { index: self.index, bytes: self.bytes@, path: self.path@ }
    }
}

/// Enough state to execute one instruction, and to prove it was the state both parties agreed
/// on.
///
/// Everything except memory is carried whole. Memory is the part measured in megabytes, so only
/// the pages the disputed instruction actually touches are carried, each with a Merkle proof
/// binding it to the memory root. That is what keeps an adjudicator's work independent of how
/// much memory the workload declared.
///
/// [`Witness::commitment`] rebuilds a [`StateCommitment`] from the witness alone. If its root
/// equals the state root both parties agreed on during bisection, the witness describes the
/// agreed state. The root leaves out where constructs end and how far memory may grow, which the
/// module fixes and the adjudicator takes from no one else, and how many instructions have run,
/// on which nothing depends.
#[derive(Debug, Clone, PartialEq, Eq)]
pub struct Witness {
    /// The digest of the answer so far.
    pub output: Digest,
    /// The module's globals, in index order.
    pub globals: Vec<Value>,
    /// The operand stack, bottom to top.
    pub operand_stack: Vec<Value>,
    /// The call stack, outermost first.
    pub frames: Vec<FrameWitness>,
    /// Current memory size in pages.
    pub memory_pages: u32,
    /// The memory's declared ceiling, needed to size the reconstruction.
    pub memory_max_pages: u32,
    /// Root of the memory the pages below are proved against.
    pub memory_root: Digest,
    /// The pages the disputed instruction needs.
    pub pages: Vec<PageWitness>,
    /// Which data segments have been dropped.
    pub dropped_data: Vec<bool>,
    /// Which element segments have been dropped.
    pub dropped_elements: Vec<bool>,
    /// Fuel consumed.
    pub fuel: Fuel,
    /// Instructions executed.
    pub steps: u64,
}

/// The value of a [`Witness`].
pub struct WitnessView {
    /// The digest of the answer so far.
    pub output: Digest,
    /// The globals.
    pub globals: Seq<Value>,
    /// The operand stack.
    pub operand_stack: Seq<Value>,
    /// The call stack.
    pub frames: Seq<FrameView>,
    /// Memory size in pages.
    pub memory_pages: u32,
    /// Memory ceiling in pages.
    pub memory_max_pages: u32,
    /// Root of the memory.
    pub memory_root: Digest,
    /// The pages carried.
    pub pages: Seq<PageView>,
    /// Which data segments have been dropped.
    pub dropped_data: Seq<bool>,
    /// Which element segments have been dropped.
    pub dropped_elements: Seq<bool>,
    /// Fuel consumed.
    pub fuel: Fuel,
    /// Instructions executed.
    pub steps: u64,
}

impl View for Witness {
    type V = WitnessView;

    open spec fn view(&self) -> WitnessView {
        WitnessView {
            output: self.output,
            globals: self.globals@,
            operand_stack: self.operand_stack@,
            frames: self.frames@.map_values(|f: FrameWitness| f@),
            memory_pages: self.memory_pages,
            memory_max_pages: self.memory_max_pages,
            memory_root: self.memory_root,
            pages: self.pages@.map_values(|p: PageWitness| p@),
            dropped_data: self.dropped_data@,
            dropped_elements: self.dropped_elements@,
            fuel: self.fuel,
            steps: self.steps,
        }
    }
}

impl WitnessView {
    /// Where execution had reached.
    pub open spec fn position(self) -> ProgramCounter {
        if self.frames.len() == 0 {
            ProgramCounter { function: 0, instruction: 0 }
        } else {
            ProgramCounter {
                function: self.frames.last().function,
                instruction: self.frames.last().pc,
            }
        }
    }

    /// The commitment to the state described.
    pub open spec fn commitment(self) -> StateCommitment {
        StateCommitment {
            memory: memory_hash(self.memory_pages, self.memory_root),
            globals: values_hash(self.globals),
            operand_stack: values_hash(self.operand_stack),
            call_stack: frames_hash(self.frames.map_values(|f: FrameView| frame_digest(f))),
            segments: segments_hash(self.dropped_data, self.dropped_elements),
            output: self.output,
            program_counter: self.position(),
            fuel: self.fuel,
        }
    }
}

/// Reduce a frame to hashes.
pub(crate) fn digest_frame(
    function: u32,
    instruction: u32,
    stack_base: u32,
    arity: u32,
    locals: &Vec<Value>,
    labels: &Vec<LabelWitness>,
) -> (r: FrameDigest)
    ensures
        r == frame_digest(
            (FrameView {
                function,
                pc: instruction,
                locals: locals@,
                stack_base,
                arity,
                labels: labels@,
            }),
        ),
{
    let mut digests: Vec<LabelDigest> = Vec::new();
    let mut i: usize = 0;
    while i < labels.len()
        invariant
            i <= labels.len(),
            digests@ == labels@.take(i as int).map_values(|l: LabelWitness| label_digest(l)),
        decreases labels.len() - i,
    {
        let l: LabelWitness = labels[i];
        digests.push(
            LabelDigest {
                branch_target: l.branch_target,
                arity: l.arity,
                stack_height: l.stack_height,
                is_loop: l.is_loop,
            },
        );
        i = i + 1;
        assert(digests@ =~= labels@.take(i as int).map_values(
            |l: LabelWitness| label_digest(l),
        ));
    }
    assert(labels@.take(i as int) =~= labels@);
    FrameDigest {
        function,
        instruction,
        stack_base,
        arity,
        locals: hash_values(locals.as_slice()),
        labels: hash_labels(digests.as_slice()),
    }
}

impl Witness {
    /// The state commitment this witness describes.
    ///
    /// Computed from the witness alone, with no interpreter involved. A witness with the root
    /// that the parties agreed on is of the agreed state, if what the module fixes is as the
    /// module has it: the ceiling of the memory, and where the constructs of its labels end.
    #[must_use]
    pub fn commitment(&self) -> (r: StateCommitment)
        ensures
            r == self@.commitment(),
    {
        let mut frames: Vec<FrameDigest> = Vec::new();
        let mut i: usize = 0;
        while i < self.frames.len()
            invariant
                i <= self.frames.len(),
                frames@ == self@.frames.take(i as int).map_values(|f: FrameView| frame_digest(f)),
            decreases self.frames.len() - i,
        {
            let f = &self.frames[i];
            frames.push(
                digest_frame(
                    f.function,
                    f.instruction,
                    f.stack_base,
                    f.arity,
                    &f.locals,
                    &f.labels,
                ),
            );
            i = i + 1;
            assert(self@.frames[i - 1] == f@);
            assert(frames@ =~= self@.frames.take(i as int).map_values(
                |f: FrameView| frame_digest(f),
            ));
        }
        assert(self@.frames.take(i as int) =~= self@.frames);
        let n: usize = self.frames.len();
        let program_counter: ProgramCounter = if n == 0 {
            ProgramCounter { function: 0, instruction: 0 }
        } else {
            assert(self@.frames.last() == self.frames@.last()@);
            ProgramCounter {
                function: self.frames[n - 1].function,
                instruction: self.frames[n - 1].instruction,
            }
        };
        StateCommitment {
            memory: hash_memory(self.memory_pages, &self.memory_root),
            globals: hash_values(self.globals.as_slice()),
            operand_stack: hash_values(self.operand_stack.as_slice()),
            call_stack: hash_frames(frames.as_slice()),
            segments: hash_segments(
                self.dropped_data.as_slice(),
                self.dropped_elements.as_slice(),
            ),
            output: self.output,
            program_counter,
            fuel: self.fuel,
        }
    }
}

/// Why a witness could not be turned back into a machine.
#[derive(Debug, Clone, Copy, PartialEq, Eq, Structural)]
pub enum WitnessError {
    /// A page was not [`PAGE_SIZE`](crate::merkle::PAGE_SIZE) bytes.
    BadPageSize {
        /// The page index.
        page: u32,
        /// The length supplied.
        got: usize,
    },
    /// A page's proof does not bind it to the witness's memory root.
    ///
    /// Either the page contents or the proof was altered.
    BadPageProof {
        /// The page index.
        page: u32,
    },
    /// The supplied pages and proofs do not reconstruct the claimed memory root.
    ///
    /// Every individual proof verified, so this means they are proofs against a *different*
    /// tree than the one claimed, or too few were sent to determine the root.
    RootNotReconstructed,
    /// The witness has no call frames, so there is no instruction to execute.
    NoFrames,
    /// The witness's limits were rejected by the fuel meter.
    BadLimits,
}

impl WitnessError {
    /// The message.
    pub open spec fn message(self) -> Seq<char> {
        match self {
            WitnessError::BadPageSize { page, got } => "page "@ + text::decimal_text(page as nat)
                + " is "@ + text::decimal_text(got as nat) + " bytes, expected 65536"@,
            WitnessError::BadPageProof { page } => "page "@ + text::decimal_text(page as nat)
                + " does not belong to the claimed memory root"@,
            WitnessError::RootNotReconstructed =>
                "the supplied pages do not reconstruct the claimed memory root"@,
            WitnessError::NoFrames => "the witness has no frames, so nothing can execute"@,
            WitnessError::BadLimits => "the witness's execution limits were rejected"@,
        }
    }

    /// A description.
    pub fn to_string(&self) -> (r: String)
        ensures
            r@ == self.message(),
    {
        match self {
            WitnessError::BadPageSize { page, got } => text::join5(
                "page ",
                text::decimal(*page as u64).as_str(),
                " is ",
                text::decimal(*got as u64).as_str(),
                " bytes, expected 65536",
            ),
            WitnessError::BadPageProof { page } => text::join3(
                "page ",
                text::decimal(*page as u64).as_str(),
                " does not belong to the claimed memory root",
            ),
            WitnessError::RootNotReconstructed => String::from_str(
                "the supplied pages do not reconstruct the claimed memory root",
            ),
            WitnessError::NoFrames => String::from_str(
                "the witness has no frames, so nothing can execute",
            ),
            WitnessError::BadLimits => String::from_str(
                "the witness's execution limits were rejected",
            ),
        }
    }
}

} // verus!
