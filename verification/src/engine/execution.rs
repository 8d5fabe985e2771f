//! Whole executions: how one starts, what it leaves behind, and how a state is handed over and
//! taken up again.
use crate::bytes::{le_bytes, lemma_le_bytes_len, lemma_le_value_of_low_bytes, pow256};
use crate::engine::image::{DataSegment, ElementSegment, Function, Image};
use crate::engine::machine::{Limits, Progress, Snapshot};
use crate::engine::memory::{
    BackingView, MemoryView, full_tree, overwritten, page_of, pages_between, tree_pages,
};
use crate::engine::numeric::{Kind, TrapView, applied, kind_of, popped, shape};
use crate::engine::operator::{BlockType, Operator};
use crate::engine::semantics::{
    FrameView, MachineView, Outcome, block_arity, load_shape, loaded, next_index, store_shape,
};
use crate::engine::witness::{LabelWitness, PageView, WitnessError, WitnessView};
use crate::fuel::{Fuel, MAX_INTERVAL_LOG2, MeterState, law_schedule_follows_count};
use crate::merkle::{PAGE_SIZE, PartialView, accepts, levels};
use crate::state::{Value, output_hash};
use crate::validate::reference_touched;
use vstd::prelude::*;

verus! {

/// An element segment, written into a table.
pub open spec fn with_segment(table: Seq<Option<u32>>, segment: ElementSegment) -> Result<
    Seq<Option<u32>>,
    TrapView,
> {
    match segment {
        ElementSegment::Active { offset, functions } => if functions@.len() == 0 {
            Ok(table)
        } else if offset + functions@.len() > table.len() {
            Err(TrapView::TableOutOfBounds)
        } else {
            Ok(
                Seq::new(
                    table.len(),
                    |i: int|
                        if offset <= i < offset + functions@.len() {
                            Some(functions@[i - offset])
                        } else {
                            table[i]
                        },
                ),
            )
        },
        _ => Ok(table),
    }
}

/// Element segments, written into a table in order.
pub open spec fn with_segments(
    table: Seq<Option<u32>>,
    segments: Seq<ElementSegment>,
) -> Result<Seq<Option<u32>>, TrapView>
    decreases segments.len(),
{
    if segments.len() == 0 {
        Ok(table)
    } else {
        match with_segments(table, segments.drop_last()) {
            Err(t) => Err(t),
            Ok(t) => with_segment(t, segments.last()),
        }
    }
}

/// The table of a module: its size from the declaration, its entries from the active segments.
pub open spec fn table_of(image: Image) -> Result<Seq<Option<u32>>, TrapView> {
    let size = match image.table {
        Some(t) => t.initial as nat,
        None => 0nat,
    };
    with_segments(Seq::new(size, |i: int| None), image.elements@)
}

/// Active data segments, written into a memory in order.
pub open spec fn with_data(memory: MemoryView, segments: Seq<DataSegment>) -> Result<
    MemoryView,
    TrapView,
>
    decreases segments.len(),
{
    if segments.len() == 0 {
        Ok(memory)
    } else {
        match with_data(memory, segments.drop_last()) {
            Err(t) => Err(t),
            Ok(m) => match segments.last() {
                DataSegment::Active { offset, bytes } => match m.write(offset as u64, bytes@) {
                    (m, Ok(_)) => Ok(m),
                    (_, Err(t)) => Err(t),
                },
                DataSegment::Passive { .. } => Ok(m),
            },
        }
    }
}

/// A module as it is instantiated: memory, globals and the table installed, and the entry point
/// entered.
pub open spec fn started(image: Image, input: Seq<u8>, limits: Limits) -> Result<
    MachineView,
    TrapView,
> {
    if limits.snapshot_interval_log2 > MAX_INTERVAL_LOG2 {
        Err(TrapView::OutOfFuel)
    } else {
        match with_data(MemoryView::fresh(image.memory), image.data@) {
            Err(t) => Err(t),
            Ok(memory) => match table_of(image) {
                Err(t) => Err(t),
                Ok(table) => match (MachineView {
                    image,
                    limits,
                    memory,
                    globals: image.globals@.map_values(
                        |g: crate::engine::image::GlobalSpec| g.init,
                    ),
                    stack: Seq::empty(),
                    frames: Seq::empty(),
                    table,
                    meter: MeterState::at(
                        0,
                        limits.fuel as nat,
                        limits.snapshot_interval_log2 as nat,
                    ),
                    input,
                    output: Seq::empty(),
                    output_digest: output_hash(Seq::empty()),
                    dropped_data: Seq::new(image.data@.len(), |i: int| false),
                    dropped_elements: Seq::new(image.elements@.len(), |i: int| false),
                    steps: 0,
                    finished: false,
                }).entered(image.entry) {
                    (m, Ok(_)) => Ok(m),
                    (_, Err(t)) => Err(t),
                },
            },
        }
    }
}

/// The pages of a memory that a witness carries: those asked for that exist, with their paths.
/// A reconstruction has no paths to give, and carries none.
pub open spec fn carried(memory: MemoryView, pages: Seq<u32>) -> Seq<PageView>
    decreases pages.len(),
{
    if pages.len() == 0 {
        Seq::empty()
    } else {
        let before = carried(memory, pages.drop_last());
        let p = pages.last();
        if memory.backing is Full && p < memory.pages && p < tree_pages(memory.max_pages) {
            before.push(
                PageView {
                    index: p,
                    bytes: page_of(memory.bytes, p as int),
                    path: full_tree(memory.bytes, memory.pages, memory.max_pages).path(p as nat),
                },
            )
        } else {
            before
        }
    }
}

/// Does a sequence list a set, in increasing order?
pub open spec fn lists(pages: Seq<u32>, set: Set<u32>) -> bool {
    &&& pages.to_set() == set
    &&& forall|i: int, j: int| 0 <= i < j < pages.len() ==> pages[i] < pages[j]
}

impl MachineView {
    /// The witness of this state that carries the named pages.
    pub open spec fn witness(self, pages: Seq<u32>) -> WitnessView {
        WitnessView {
            output: self.output_digest,
            globals: self.globals,
            operand_stack: self.stack,
            frames: self.frames,
            memory_pages: self.memory.pages,
            memory_max_pages: self.memory.max_pages,
            memory_root: self.memory.tree_root(),
            pages: carried(self.memory, pages),
            dropped_data: self.dropped_data,
            dropped_elements: self.dropped_elements,
            fuel: Fuel(self.meter.consumed as u64),
            steps: self.steps,
        }
    }

    /// The state with every page touched from now on recorded.
    pub open spec fn noting(self) -> MachineView {
        self.with_memory(MemoryView { accessed: Some(Set::empty()), ..self.memory })
    }

    /// The pages the next instruction touches.
    pub open spec fn next_pages(self) -> Set<u32> {
        match self.noting().stepped().0.memory.accessed {
            Some(p) => p,
            None => Set::empty(),
        }
    }

    /// Running on for at most some number of instructions, taking a snapshot at every boundary.
    pub open spec fn ran(self, snapshots: Seq<Snapshot>, turns: nat) -> (
        MachineView,
        Result<Seq<Snapshot>, TrapView>,
    )
        decreases turns,
    {
        if turns == 0 {
            (self, Err(TrapView::OutOfFuel))
        } else {
            match self.stepped() {
                (m, Err(t)) => (m, Err(t)),
                (m, Ok(Progress::Continued)) => m.ran(snapshots, (turns - 1) as nat),
                (m, Ok(Progress::Snapshot { at })) => m.committed().ran(
                    snapshots.push(Snapshot { step: m.steps, fuel: at, root: m.root() }),
                    (turns - 1) as nat,
                ),
                (m, Ok(Progress::Finished)) => (m, Ok(snapshots)),
            }
        }
    }
}

/// The memory of a machine being rebuilt, so far.
pub struct Rebuilding {
    /// What the proofs revealed.
    pub tree: PartialView,
    /// The bytes, zero where nothing was supplied.
    pub bytes: Seq<u8>,
    /// The pages supplied.
    pub resident: Set<u32>,
}

/// The memory that the first pages of a witness rebuild, or what is wrong with them.
pub open spec fn rebuilding(w: WitnessView, count: nat) -> Result<Rebuilding, WitnessError>
    decreases count,
{
    if count == 0 {
        Ok(
            Rebuilding {
                tree: PartialView::unknown(tree_pages(w.memory_max_pages)),
                bytes: Seq::new((w.memory_pages * PAGE_SIZE) as nat, |i: int| 0u8),
                resident: Set::empty(),
            },
        )
    } else {
        match rebuilding(w, (count - 1) as nat) {
            Err(e) => Err(e),
            Ok(s) => {
                let p = w.pages[count - 1];
                if p.bytes.len() != PAGE_SIZE {
                    Err(WitnessError::BadPageSize { page: p.index, got: p.bytes.len() as usize })
                } else if !accepts(w.memory_root, p.index as nat, p.bytes, p.path) || p.index
                    >= s.tree.pages || p.path.len() != levels(s.tree.capacity) {
                    Err(WitnessError::BadPageProof { page: p.index })
                } else {
                    Ok(
                        Rebuilding {
                            tree: s.tree.with_supplied(p.index as nat, p.bytes, p.path),
                            bytes: if p.index < w.memory_pages {
                                overwritten(s.bytes, p.index * PAGE_SIZE, p.bytes)
                            } else {
                                s.bytes
                            },
                            resident: s.resident.insert(p.index),
                        },
                    )
                }
            },
        }
    }
}

/// Does a label name the `end` that its construct has? A branch to a loop goes behind where the
/// loop begins, and any other branch behind the `end` itself.
///
/// Where a branch target is the largest there is, it says nothing.
pub open spec fn label_fits(f: Function, l: LabelWitness) -> bool {
    if l.is_loop {
        l.branch_target == u32::MAX || (0 < l.branch_target <= f.control@.len()
            && f.control@[l.branch_target - 1] is Some && l.end
            == f.control@[l.branch_target - 1]->0.end)
    } else {
        l.branch_target == next_index(l.end)
    }
}

/// Does a label fit a function, which the module defines?
pub open spec fn label_fits_in(image: Image, function: u32, l: LabelWitness) -> bool {
    match image.defined(function) {
        Some(position) => label_fits(image.functions@[position], l),
        None => false,
    }
}

/// Do the labels of a frame fit the function that it executes?
pub open spec fn frame_fits(image: Image, f: FrameView) -> bool {
    forall|j: int|
        0 <= j < f.labels.len() ==> label_fits_in(image, f.function, #[trigger] f.labels[j])
}

/// Do the labels of a call stack fit the functions that it executes?
pub open spec fn frames_fit(image: Image, frames: Seq<FrameView>) -> bool {
    forall|i: int| 0 <= i < frames.len() ==> frame_fits(image, #[trigger] frames[i])
}

/// Does a witness say what the module fixes as the module has it? A root covers neither how far
/// memory may grow nor where the construct of a label ends, because no execution can change them.
pub open spec fn fits_module(image: Image, witness: WitnessView) -> bool {
    witness.memory_max_pages == image.memory.maximum_pages && frames_fit(image, witness.frames)
}

/// Is a function short enough for a branch target to point behind every construct of it?
pub open spec fn is_short(f: Function) -> bool {
    forall|i: int|
        0 <= i < f.control@.len() ==> i < u32::MAX - 1 && ((#[trigger] f.control@[i]) matches Some(c)
            ==> c.end < u32::MAX - 1)
}

/// Is a label as execution leaves it: does it fit, with a target that says where if any can?
pub open spec fn label_placed(f: Function, l: LabelWitness) -> bool {
    label_fits(f, l) && (is_short(f) ==> l.branch_target < u32::MAX)
}

/// Is a label as execution of a function, which the module defines, leaves it?
pub open spec fn label_placed_in(image: Image, function: u32, l: LabelWitness) -> bool {
    match image.defined(function) {
        Some(position) => label_placed(image.functions@[position], l),
        None => false,
    }
}

/// Are the labels of a frame as execution leaves them?
pub open spec fn frame_placed(image: Image, f: FrameView) -> bool {
    forall|j: int|
        0 <= j < f.labels.len() ==> label_placed_in(image, f.function, #[trigger] f.labels[j])
}

/// Are the labels of a call stack as execution leaves them?
pub open spec fn frames_placed(image: Image, frames: Seq<FrameView>) -> bool {
    forall|i: int| 0 <= i < frames.len() ==> frame_placed(image, #[trigger] frames[i])
}

/// The machine a witness rebuilds, or what is wrong with the witness.
pub open spec fn restored(image: Image, w: WitnessView, input: Seq<u8>, limits: Limits) -> Result<
    MachineView,
    WitnessError,
> {
    if w.frames.len() == 0 {
        Err(WitnessError::NoFrames)
    } else {
        match rebuilding(w, w.pages.len()) {
            Err(e) => Err(e),
            Ok(s) => if w.pages.len() > 0 && s.tree.root() != Some(w.memory_root) {
                Err(WitnessError::RootNotReconstructed)
            } else if limits.snapshot_interval_log2 > MAX_INTERVAL_LOG2 {
                Err(WitnessError::BadLimits)
            } else {
                match table_of(image) {
                    Err(_) => Err(WitnessError::BadLimits),
                    Ok(table) => Ok(
                        MachineView {
                            image,
                            limits,
                            memory: MemoryView {
                                bytes: s.bytes,
                                pages: w.memory_pages,
                                max_pages: w.memory_max_pages,
                                backing: BackingView::Witnessed {
                                    tree: s.tree,
                                    dirty: Set::empty(),
                                    last_root: w.memory_root,
                                },
                                resident: Some(s.resident),
                                accessed: None,
                            },
                            globals: w.globals,
                            stack: w.operand_stack,
                            frames: w.frames,
                            table,
                            meter: MeterState::at(
                                w.fuel.0 as nat,
                                limits.fuel as nat,
                                limits.snapshot_interval_log2 as nat,
                            ),
                            input,
                            output: Seq::empty(),
                            output_digest: w.output,
                            dropped_data: w.dropped_data,
                            dropped_elements: w.dropped_elements,
                            steps: w.steps,
                            finished: false,
                        },
                    ),
                }
            },
        }
    }
}

impl MachineView {
    /// The state some number of instructions later, if execution gets that far.
    pub open spec fn after(self, instructions: nat) -> Option<MachineView>
        decreases instructions,
    {
        if instructions == 0 {
            Some(self)
        } else {
            match self.after((instructions - 1) as nat) {
                None => None,
                Some(m) => if m.finished {
                    None
                } else {
                    match m.stepped() {
                        (next, Ok(_)) => Some(next),
                        (_, Err(_)) => None,
                    }
                },
            }
        }
    }

    /// What no instruction changes: the module, the limits, the table and the input.
    pub open spec fn same_unit(self, other: MachineView) -> bool {
        &&& self.image == other.image
        &&& self.limits == other.limits
        &&& self.table == other.table
        &&& self.input == other.input
    }
}

/// Is this a whole memory, of the size it says?
pub open spec fn is_whole(m: MemoryView) -> bool {
    &&& m.backing is Full
    &&& m.resident is None
    &&& m.bytes.len() == m.pages * PAGE_SIZE
}

/// Has every page of a memory a place in the tree that commits to it?
pub open spec fn is_committed(m: MemoryView) -> bool {
    m.pages <= tree_pages(m.max_pages)
}

/// Has every page that the next instruction touches such a place? A page without one is covered
/// by no root, and no witness can carry it.
pub open spec fn touches_committed(m: MachineView) -> bool {
    forall|p: u32| #[trigger]
        m.next_pages().contains(p) && p < m.memory.pages ==> p < tree_pages(m.memory.max_pages)
}

/// Does the meter follow the schedule that its count calls for?
pub open spec fn is_metered(m: MachineView) -> bool {
    &&& m.limits.snapshot_interval_log2 <= MAX_INTERVAL_LOG2
    &&& m.meter.consumed <= u64::MAX
    &&& m.meter == MeterState::at(
        m.meter.consumed,
        m.limits.fuel as nat,
        m.limits.snapshot_interval_log2 as nat,
    )
}

/// The state of an execution that has not ended, with its memory whole.
pub open spec fn running(m: MachineView) -> bool {
    &&& !m.finished
    &&& m.frames.len() > 0
    &&& is_whole(m.memory)
    &&& is_metered(m)
    &&& table_of(m.image) == Ok::<_, TrapView>(m.table)
    &&& m.memory.max_pages == m.image.memory.maximum_pages
    &&& frames_placed(m.image, m.frames)
}

/// What a memory operation leaves of a memory.
spec fn retains(m: MemoryView, n: MemoryView) -> bool {
    &&& n.max_pages == m.max_pages
    &&& is_whole(m) ==> is_whole(n)
    &&& is_committed(m) ==> is_committed(n)
    &&& m.accessed is Some ==> n.accessed is Some
}

/// What an instruction leaves alone, and that it reports the end when it reaches it.
spec fn keeps(m: MachineView, o: Outcome) -> bool {
    &&& o.0.same_unit(m)
    &&& o.0.steps == m.steps
    &&& retains(m.memory, o.0.memory)
    &&& is_metered(m) ==> is_metered(o.0)
    &&& !m.finished ==> (o.0.finished <==> o.1 == Ok::<_, TrapView>(Progress::Finished))
    &&& m.frames.len() > 0 && !m.finished && o.1 is Ok && !o.0.finished ==> o.0.frames.len() > 0
}

proof fn lemma_charged_keeps(m: MachineView)
    ensures
        keeps(m, m.charged()),
{
    reveal(MachineView::charged);
    if let (n, Ok(k)) = m.popped_i32() {
        if is_metered(m) {
            law_schedule_follows_count(
                m.meter.consumed,
                m.limits.fuel as nat,
                m.limits.snapshot_interval_log2 as nat,
                (k as u32) as nat,
            );
        }
    }
}

proof fn lemma_called_keeps(m: MachineView, index: u32)
    ensures
        keeps(m, m.called(index)),
{
    reveal(MachineView::called);
    reveal(MachineView::hosted);
    reveal(MachineView::entered);
    lemma_charged_keeps(m);
}

proof fn lemma_called_indirect_keeps(m: MachineView, index: u32)
    ensures
        keeps(m, m.called_indirect(index)),
{
    reveal(MachineView::called_indirect);
    let (n, slot) = m.popped_i32();
    if let Ok(slot) = slot {
        if (slot as u32) < n.table.len() {
            if let Some(target) = n.table[(slot as u32) as int] {
                lemma_called_keeps(n, target);
            }
        }
    }
}

proof fn lemma_branching_keeps(m: MachineView, op: Operator)
    ensures
        keeps(m, m.branching(op)),
{
    reveal(MachineView::branching);
    reveal(MachineView::branched);
    reveal(MachineView::left);
}

proof fn lemma_write_retains(m: MemoryView, address: u64, data: Seq<u8>)
    ensures
        retains(m, m.write(address, data).0),
{
}

proof fn lemma_copy_retains(m: MemoryView, dest: u64, src: u64, len: nat)
    ensures
        retains(m, m.copy(dest, src, len).0),
{
}

proof fn lemma_grow_retains(m: MemoryView, delta: u32)
    ensures
        retains(m, m.grow(delta).0),
{
}

proof fn lemma_initialised_keeps(m: MachineView, index: u32)
    ensures
        keeps(m, m.initialised(index)),
{
    reveal(MachineView::initialised);
    if let (n, Ok((len, src))) = m.popped_range() {
        if let (n, Ok(dest)) = n.popped_i32() {
            let bytes = if n.dropped_data[index as int] {
                Seq::empty()
            } else {
                n.image.data@[index as int].content()
            };
            lemma_write_retains(
                n.memory,
                (dest as u32) as u64,
                bytes.subrange(src as int, src + len),
            );
        }
    }
}

proof fn lemma_grown_keeps(m: MachineView)
    ensures
        keeps(m, m.bulk(Operator::MemoryGrow)),
{
    reveal(MachineView::bulk);
    if let (n, Ok(delta)) = m.popped_i32() {
        lemma_grow_retains(n.memory, delta as u32);
    }
}

proof fn lemma_filled_keeps(m: MachineView)
    ensures
        keeps(m, m.bulk(Operator::MemoryFill)),
{
    reveal(MachineView::bulk);
    if let (n, Ok(len)) = m.popped_i32() {
        if let (n, Ok(byte)) = n.popped_i32() {
            if let (n, Ok(address)) = n.popped_i32() {
                lemma_write_retains(
                    n.memory,
                    (address as u32) as u64,
                    Seq::new((len as u32) as nat, |i: int| byte as u8),
                );
            }
        }
    }
}

proof fn lemma_copied_keeps(m: MachineView)
    ensures
        keeps(m, m.bulk(Operator::MemoryCopy)),
{
    reveal(MachineView::bulk);
    if let (n, Ok((len, src))) = m.popped_range() {
        if let (n, Ok(dest)) = n.popped_i32() {
            lemma_copy_retains(n.memory, (dest as u32) as u64, src, len);
        }
    }
}

proof fn lemma_bulk_keeps(m: MachineView, op: Operator)
    ensures
        keeps(m, m.bulk(op)),
{
    match op {
        Operator::MemoryInit { data_index } => {
            reveal(MachineView::bulk);
            lemma_initialised_keeps(m, data_index);
        },
        Operator::MemoryGrow => {
            lemma_grown_keeps(m);
        },
        Operator::MemoryFill => {
            lemma_filled_keeps(m);
        },
        Operator::MemoryCopy => {
            lemma_copied_keeps(m);
        },
        _ => {
            reveal(MachineView::bulk);
        },
    }
}

proof fn lemma_constructs_keep(
    m: MachineView,
    f: Function,
    pc: u32,
    ty: BlockType,
    is_loop: bool,
)
    ensures
        keeps(m, m.block(f, pc, ty, is_loop)),
        keeps(m, m.branch_if(f, pc, ty)),
{
    reveal(MachineView::block);
    reveal(MachineView::branch_if);
}

proof fn lemma_variables_keep(m: MachineView, op: Operator)
    ensures
        keeps(m, m.selected()),
        keeps(m, m.variable(op)),
{
    reveal(MachineView::selected);
    reveal(MachineView::variable);
}

proof fn lemma_load_keeps(m: MachineView, op: Operator, offset: u64, width: nat)
    ensures
        keeps(m, m.load(op, offset, width)),
{
    reveal(MachineView::load);
}

proof fn lemma_store_keeps(m: MachineView, offset: u64, kind: Kind, width: nat)
    ensures
        keeps(m, m.store(offset, kind, width)),
{
    reveal(MachineView::store);
}

proof fn lemma_executed_keeps(m: MachineView, op: Operator, f: Function, pc: u32)
    ensures
        keeps(m, m.executed(op, f, pc)),
{
    reveal(MachineView::executed);
    match op {
        Operator::Block { blockty } => lemma_constructs_keep(m, f, pc, blockty, false),
        Operator::Loop { blockty } => lemma_constructs_keep(m, f, pc, blockty, true),
        Operator::If { blockty } => lemma_constructs_keep(m, f, pc, blockty, false),
        Operator::Else
        | Operator::End
        | Operator::Br { .. }
        | Operator::BrIf { .. }
        | Operator::BrTable { .. }
        | Operator::Return => lemma_branching_keeps(m, op),
        Operator::Call { function_index } => lemma_called_keeps(m, function_index),
        Operator::CallIndirect { type_index } => lemma_called_indirect_keeps(m, type_index),
        Operator::Select
        | Operator::TypedSelect { .. }
        | Operator::LocalGet { .. }
        | Operator::LocalSet { .. }
        | Operator::LocalTee { .. }
        | Operator::GlobalGet { .. }
        | Operator::GlobalSet { .. } => lemma_variables_keep(m, op),
        Operator::MemorySize
        | Operator::MemoryGrow
        | Operator::MemoryFill
        | Operator::MemoryCopy
        | Operator::MemoryInit { .. }
        | Operator::DataDrop { .. }
        | Operator::ElemDrop { .. } => lemma_bulk_keeps(m, op),
        _ => {
            if let Some((offset, width)) = load_shape(op) {
                lemma_load_keeps(m, op, offset, width);
            } else if let Some((offset, kind, width)) = store_shape(op) {
                lemma_store_keeps(m, offset, kind, width);
            }
        },
    }
}

proof fn lemma_same_frames_fit(m: MachineView, n: MachineView)
    requires
        frames_placed(m.image, m.frames),
        n.image == m.image,
        n.frames == m.frames || (m.frames.len() > 0 && n.frames == m.frames.drop_last()),
    ensures
        frames_placed(n.image, n.frames),
{
    assert forall|i: int| 0 <= i < n.frames.len() implies frame_placed(
        n.image,
        #[trigger] n.frames[i],
    ) by {
        assert(n.frames[i] == m.frames[i]);
    }
}

/// The top frame may be replaced by one that fits.
proof fn lemma_with_top_fits(m: MachineView, f: FrameView)
    requires
        frames_placed(m.image, m.frames),
        m.frames.len() > 0,
        frame_placed(m.image, f),
    ensures
        frames_placed(m.image, m.with_top(f).frames),
{
    let frames = m.with_top(f).frames;
    assert forall|i: int| 0 <= i < frames.len() implies frame_placed(
        m.image,
        #[trigger] frames[i],
    ) by {
        if i < m.frames.len() - 1 {
            assert(frames[i] == m.frames[i]);
        }
    }
}

proof fn lemma_left_fits(m: MachineView)
    requires
        frames_placed(m.image, m.frames),
    ensures
        frames_placed(m.image, m.left().0.frames),
{
    reveal(MachineView::left);
    lemma_same_frames_fit(m, m.left().0);
}

proof fn lemma_branched_fits(m: MachineView, depth: u32)
    requires
        frames_placed(m.image, m.frames),
    ensures
        frames_placed(m.image, m.branched(depth).0.frames),
{
    reveal(MachineView::branched);
    lemma_left_fits(m);
    if m.frames.len() > 0 && depth < m.top().labels.len() {
        let f = m.top();
        let index = f.labels.len() - 1 - depth;
        let label = f.labels[index];
        let kept = if label.is_loop {
            index + 1
        } else {
            index
        };
        let g = FrameView { labels: f.labels.take(kept), pc: label.branch_target, ..f };
        assert(frame_placed(m.image, m.frames[m.frames.len() - 1]));
        assert forall|j: int| 0 <= j < g.labels.len() implies label_placed_in(m.image, g.function, #[trigger] g.labels[j]) by {
            assert(g.labels[j] == f.labels[j]);
        }
        lemma_with_top_fits(m, g);
    }
}

proof fn lemma_branching_fits(m: MachineView, op: Operator)
    requires
        frames_placed(m.image, m.frames),
    ensures
        frames_placed(m.image, m.branching(op).0.frames),
{
    reveal(MachineView::branching);
    lemma_left_fits(m);
    let n = m.popped_i32().0;
    match op {
        Operator::Br { relative_depth } => lemma_branched_fits(m, relative_depth),
        Operator::BrIf { relative_depth } => lemma_branched_fits(n, relative_depth),
        Operator::BrTable { targets, default } => {
            if let (_, Ok(index)) = m.popped_i32() {
                lemma_branched_fits(
                    n,
                    if (index as u32) < targets@.len() {
                        targets@[(index as u32) as int]
                    } else {
                        default
                    },
                );
            }
        },
        Operator::Else => {
            if m.frames.len() > 0 && m.top().labels.len() > 0 {
                let g = FrameView { pc: m.top().labels.last().end, ..m.top() };
                assert(frame_placed(m.image, m.frames[m.frames.len() - 1]));
                assert(frame_placed(m.image, g));
                lemma_with_top_fits(m, g);
            }
        },
        Operator::End => {
            if m.frames.len() > 0 && m.top().labels.len() > 0 {
                let g = FrameView { labels: m.top().labels.drop_last(), ..m.top() };
                assert(frame_placed(m.image, m.frames[m.frames.len() - 1]));
                assert forall|j: int| 0 <= j < g.labels.len() implies label_placed_in(m.image, g.function, #[trigger] g.labels[j]) by {
                    assert(g.labels[j] == m.top().labels[j]);
                }
                lemma_with_top_fits(m, g);
            }
        },
        _ => {},
    }
}

/// The label of a construct fits the function it is in.
proof fn lemma_labelled_fits(
    m: MachineView,
    is_loop: bool,
    pc: u32,
    params: u32,
    results: u32,
)
    requires
        frames_placed(m.image, m.frames),
        m.frames.len() > 0,
        m.image.defined(m.top().function) matches Some(position) && {
            let control = m.image.functions@[position].control@;
            pc < control.len() && control[pc as int] is Some
        },
    ensures
        ({
            let position = m.image.defined(m.top().function)->0;
            let end = m.image.functions@[position].control@[pc as int]->0.end;
            frames_placed(
                m.image,
                m.labelled(m.label_for(is_loop, pc, end, params, results)).frames,
            )
        }),
{
    let position = m.image.defined(m.top().function)->0;
    let f = m.image.functions@[position];
    let l = m.label_for(is_loop, pc, f.control@[pc as int]->0.end, params, results);
    let g = FrameView { labels: m.top().labels.push(l), ..m.top() };
    assert(frame_placed(m.image, m.frames[m.frames.len() - 1]));
    assert(label_placed(f, l));
    assert forall|j: int| 0 <= j < g.labels.len() implies label_placed_in(m.image, g.function, #[trigger] g.labels[j]) by {
        if j < m.top().labels.len() {
            assert(g.labels[j] == m.top().labels[j]);
        }
    }
    lemma_with_top_fits(m, g);
}

proof fn lemma_block_fits(m: MachineView, f: Function, pc: u32, ty: BlockType, is_loop: bool)
    requires
        frames_placed(m.image, m.frames),
        m.frames.len() > 0,
        m.image.defined(m.top().function) matches Some(position)
            && m.image.functions@[position] == f,
    ensures
        frames_placed(m.image, m.block(f, pc, ty, is_loop).0.frames),
{
    reveal(MachineView::block);
    if pc < f.control@.len() && f.control@[pc as int] is Some {
        if let Some((params, results)) = block_arity(m.image, ty) {
            lemma_labelled_fits(m, is_loop, pc, params, results);
        }
    }
}

proof fn lemma_branch_if_fits(m: MachineView, f: Function, pc: u32, ty: BlockType)
    requires
        frames_placed(m.image, m.frames),
        m.frames.len() > 0,
        m.image.defined(m.top().function) matches Some(position)
            && m.image.functions@[position] == f,
    ensures
        frames_placed(m.image, m.branch_if(f, pc, ty).0.frames),
{
    reveal(MachineView::branch_if);
    if pc < f.control@.len() && f.control@[pc as int] is Some {
        if let Some((params, results)) = block_arity(m.image, ty) {
            if let (n, Ok(condition)) = m.popped_i32() {
                let control = f.control@[pc as int]->0;
                lemma_labelled_fits(n, false, pc, params, results);
                let k = n.labelled(n.label_for(false, pc, control.end, params, results));
                assert(k.top().function == m.top().function);
                if let Some(at) = control.otherwise {
                    let g = FrameView { pc: next_index(at), ..k.top() };
                    assert(frame_placed(k.image, k.frames[k.frames.len() - 1]));
                    assert(frame_placed(k.image, g));
                    lemma_with_top_fits(k, g);
                }
                let g = FrameView { pc: next_index(control.end), ..n.top() };
                assert(frame_placed(n.image, n.frames[n.frames.len() - 1]));
                assert(frame_placed(n.image, g));
                lemma_with_top_fits(n, g);
            }
        }
    }
}

proof fn lemma_called_fits(m: MachineView, index: u32)
    requires
        frames_placed(m.image, m.frames),
    ensures
        frames_placed(m.image, m.called(index).0.frames),
{
    reveal(MachineView::called);
    reveal(MachineView::hosted);
    reveal(MachineView::charged);
    reveal(MachineView::entered);
    let n = m.called(index).0;
    assert forall|i: int| 0 <= i < n.frames.len() implies frame_placed(
        m.image,
        #[trigger] n.frames[i],
    ) by {
        if i < m.frames.len() {
            assert(n.frames[i] == m.frames[i]);
        }
    }
}

/// Every instruction leaves labels that fit.
proof fn lemma_executed_fits(m: MachineView, op: Operator, f: Function, pc: u32)
    requires
        frames_placed(m.image, m.frames),
        m.frames.len() > 0,
        m.image.defined(m.top().function) matches Some(position)
            && m.image.functions@[position] == f,
    ensures
        frames_placed(m.image, m.executed(op, f, pc).0.frames),
{
    reveal(MachineView::executed);
    match op {
        Operator::Else
        | Operator::End
        | Operator::Br { .. }
        | Operator::BrIf { .. }
        | Operator::BrTable { .. }
        | Operator::Return => lemma_branching_fits(m, op),
        Operator::Block { blockty } => lemma_block_fits(m, f, pc, blockty, false),
        Operator::Loop { blockty } => lemma_block_fits(m, f, pc, blockty, true),
        Operator::If { blockty } => lemma_branch_if_fits(m, f, pc, blockty),
        Operator::Call { function_index } => lemma_called_fits(m, function_index),
        Operator::CallIndirect { type_index } => {
            reveal(MachineView::called_indirect);
            let (n, slot) = m.popped_i32();
            if let Ok(slot) = slot {
                if (slot as u32) < n.table.len() {
                    if let Some(target) = n.table[(slot as u32) as int] {
                        lemma_called_fits(n, target);
                    }
                }
            }
        },
        _ => {
            reveal(MachineView::selected);
            reveal(MachineView::variable);
            reveal(MachineView::load);
            reveal(MachineView::store);
            reveal(MachineView::bulk);
            reveal(MachineView::initialised);
        },
    }
}

/// Every step leaves labels that fit.
proof fn lemma_stepped_fits(m: MachineView)
    requires
        frames_placed(m.image, m.frames),
    ensures
        frames_placed(m.image, m.stepped().0.frames),
{
    if !m.finished && m.frames.len() > 0 {
        if let Some(position) = m.image.defined(m.top().function) {
            let f = m.image.functions@[position];
            let pc = m.top().pc;
            if pc < f.ops@.len() {
                let op = f.ops@[pc as int];
                let a = m.advanced();
                let g = FrameView { pc: next_index(pc), ..m.top() };
                assert(frame_placed(m.image, m.frames[m.frames.len() - 1]));
                assert(frame_placed(m.image, g));
                lemma_with_top_fits(m, g);
                let (stack, handled) = applied(op, a.stack);
                lemma_executed_fits(a.with_stack(stack), op, f, pc);
            }
        }
    }
}

/// Every instruction executed is counted, once, and leaves the module, the limits, the table and
/// the input alone. A finished execution counts nothing.
pub proof fn law_a_step_is_one_instruction(m: MachineView)
    ensures
        m.stepped().0.same_unit(m),
        m.stepped().1 is Ok && !m.finished && m.steps < u64::MAX ==> m.stepped().0.steps == m.steps
            + 1,
        m.finished ==> m.stepped() == (m, Ok::<_, TrapView>(Progress::Finished)),
        m.stepped().0.finished <==> m.stepped().1 == Ok::<_, TrapView>(Progress::Finished),
        m.memory.accessed is Some ==> m.stepped().0.memory.accessed is Some,
{
    lemma_stepped_keeps(m);
}

/// An execution that has not ended stays in a state that can be handed over and taken up again.
pub proof fn law_running_goes_on(m: MachineView)
    requires
        running(m),
    ensures
        m.stepped().1 is Ok && !m.stepped().0.finished ==> running(m.stepped().0),
        m.stepped().0.memory.max_pages == m.memory.max_pages,
        is_committed(m.memory) ==> is_committed(m.stepped().0.memory),
{
    lemma_stepped_keeps(m);
    lemma_stepped_fits(m);
}

/// A step keeps what its instruction keeps, but for the count and the counter.
proof fn lemma_stepped_keeps(m: MachineView)
    ensures
        keeps(MachineView { steps: m.stepped().0.steps, ..m }, m.stepped()),
        m.stepped().1 is Ok && !m.finished && m.steps < u64::MAX ==> m.stepped().0.steps == m.steps
            + 1,
{
    if !m.finished && m.frames.len() > 0 {
        if let Some(position) = m.image.defined(m.top().function) {
            let f = m.image.functions@[position];
            let pc = m.top().pc;
            if pc < f.ops@.len() {
                let op = f.ops@[pc as int];
                let a = m.advanced();
                let (stack, handled) = applied(op, a.stack);
                lemma_executed_keeps(a.with_stack(stack), op, f, pc);
            }
        }
    }
}

proof fn lemma_data_retains(memory: MemoryView, segments: Seq<DataSegment>)
    requires
        is_whole(memory),
    ensures
        with_data(memory, segments) matches Ok(m) ==> is_whole(m) && m.max_pages
            == memory.max_pages && m.pages == memory.pages,
    decreases segments.len(),
{
    if segments.len() > 0 {
        lemma_data_retains(memory, segments.drop_last());
    }
}

/// A module that starts is running, and within its ceiling if its memory starts there.
pub proof fn law_a_started_machine_is_running(image: Image, input: Seq<u8>, limits: Limits)
    ensures
        started(image, input, limits) matches Ok(m) ==> running(m) && m.steps == 0 && m.image
            == image && m.input == input && m.limits == limits && m.memory.max_pages
            == image.memory.maximum_pages && (image.memory.initial_pages <= tree_pages(
            image.memory.maximum_pages,
        ) ==> is_committed(m.memory)),
{
    reveal(MachineView::entered);
    lemma_data_retains(MemoryView::fresh(image.memory), image.data@);
}

/// However far it gets, an execution that has not ended is running, and within its ceiling if its
/// memory started there.
pub proof fn law_every_state_reached_is_running(
    image: Image,
    input: Seq<u8>,
    limits: Limits,
    n: nat,
)
    ensures
        started(image, input, limits) matches Ok(m) ==> (m.after(n) matches Some(s) ==> s.image
            == image && s.input == input && s.limits == limits && s.memory.max_pages
            == image.memory.maximum_pages && (!s.finished ==> running(s)) && (
        image.memory.initial_pages <= tree_pages(image.memory.maximum_pages) ==> is_committed(
            s.memory,
        ))),
    decreases n,
{
    law_a_started_machine_is_running(image, input, limits);
    if n > 0 {
        law_every_state_reached_is_running(image, input, limits, (n - 1) as nat);
        if let Ok(m) = started(image, input, limits) {
            if let Some(s) = m.after((n - 1) as nat) {
                if !s.finished {
                    law_running_goes_on(s);
                    law_a_step_is_one_instruction(s);
                }
            }
        }
    }
}

/// Do snapshots name, in increasing order, steps of an execution, with the roots it has there?
pub open spec fn attested(m: MachineView, snapshots: Seq<Snapshot>) -> bool {
    &&& forall|i: int|
        0 <= i < snapshots.len() ==> (m.after((#[trigger] snapshots[i]).step as nat) matches Some(s)
            && s.root() == snapshots[i].root)
    &&& forall|i: int, j: int|
        0 <= i < j < snapshots.len() ==> (#[trigger] snapshots[i]).step < (
        #[trigger] snapshots[j]).step
}

proof fn lemma_ran(m0: MachineView, m: MachineView, snapshots: Seq<Snapshot>, turns: nat)
    requires
        m0.after(m.steps as nat) == Some(m),
        m.finished || running(m),
        m.steps + turns <= u64::MAX,
        attested(m0, snapshots),
        snapshots.len() > 0 ==> snapshots.last().step <= m.steps,
    ensures
        m.ran(snapshots, turns) matches (f, Ok(all)) ==> f.finished && m0.after(f.steps as nat)
            == Some(f) && attested(m0, all),
    decreases turns,
{
    if turns > 0 {
        law_a_step_is_one_instruction(m);
        let (next, r) = m.stepped();
        if !m.finished && r is Ok {
            law_running_goes_on(m);
            assert(m0.after(next.steps as nat) == Some(next));
            match r->Ok_0 {
                Progress::Continued => {
                    lemma_ran(m0, next, snapshots, (turns - 1) as nat);
                },
                Progress::Snapshot { at } => {
                    assert(next.committed() == next);
                    let more = snapshots.push(
                        Snapshot { step: next.steps, fuel: at, root: next.root() },
                    );
                    lemma_ran(m0, next, more, (turns - 1) as nat);
                },
                Progress::Finished => {},
            }
        }
    }
}

/// Running is stepping: a run that completes ends in a state that stepping reaches, and every
/// snapshot on the way is the root that stepping has at its step. Snapshots are strictly
/// increasing in step index.
pub proof fn law_running_agrees_with_stepping(m: MachineView, turns: nat)
    requires
        running(m),
        m.steps == 0,
        turns <= u64::MAX,
    ensures
        m.committed() == m,
        m.committed().ran(Seq::empty(), turns) matches (f, Ok(snapshots)) ==> f.finished && m.after(
            f.steps as nat,
        ) == Some(f) && attested(m, snapshots),
{
    lemma_ran(m, m, Seq::empty(), turns);
}

/// The fuel at which a snapshot is due behind some number of instructions and the next, if one is.
pub open spec fn snapshot_due(m: MachineView, instructions: nat) -> Option<Fuel> {
    match m.after(instructions) {
        Some(n) => match n.stepped().1 {
            Ok(Progress::Snapshot { at }) => if n.finished {
                None
            } else {
                Some(at)
            },
            _ => None,
        },
        None => None,
    }
}

/// Is there a snapshot of this step, with this fuel?
pub open spec fn has_snapshot(snapshots: Seq<Snapshot>, step: nat, fuel: Fuel) -> bool {
    exists|i: int|
        0 <= i < snapshots.len() && (#[trigger] snapshots[i]).step == step && snapshots[i].fuel
            == fuel
}

/// Are there snapshots of exactly those of the first steps at which one is due?
pub open spec fn records(m: MachineView, snapshots: Seq<Snapshot>, instructions: nat) -> bool {
    &&& forall|k: nat|
        k < instructions && (#[trigger] snapshot_due(m, k)) is Some ==> has_snapshot(
            snapshots,
            k + 1,
            snapshot_due(m, k)->0,
        )
    &&& forall|i: int|
        0 <= i < snapshots.len() ==> (#[trigger] snapshots[i]).step > 0 && snapshot_due(
            m,
            (snapshots[i].step - 1) as nat,
        ) == Some(snapshots[i].fuel)
}

proof fn lemma_recorded(m0: MachineView, m: MachineView, snapshots: Seq<Snapshot>, turns: nat)
    requires
        m0.after(m.steps as nat) == Some(m),
        m.finished || running(m),
        m.steps + turns <= u64::MAX,
        records(m0, snapshots, m.steps as nat),
    ensures
        m.ran(snapshots, turns) matches (f, Ok(all)) ==> records(m0, all, f.steps as nat),
    decreases turns,
{
    if turns > 0 {
        law_a_step_is_one_instruction(m);
        let (next, r) = m.stepped();
        if !m.finished && r is Ok {
            law_running_goes_on(m);
            let n = m.steps as nat;
            assert(m0.after(next.steps as nat) == Some(next));
            assert(next.steps == n + 1);
            match r->Ok_0 {
                Progress::Continued => {
                    assert(snapshot_due(m0, n) is None);
                    lemma_recorded(m0, next, snapshots, (turns - 1) as nat);
                },
                Progress::Snapshot { at } => {
                    assert(next.committed() == next);
                    let one = Snapshot { step: next.steps, fuel: at, root: next.root() };
                    let more = snapshots.push(one);
                    assert(snapshot_due(m0, n) == Some(at));
                    assert forall|k: nat|
                        k < n + 1 && (#[trigger] snapshot_due(m0, k)) is Some implies has_snapshot(
                        more,
                        k + 1,
                        snapshot_due(m0, k)->0,
                    ) by {
                        if k < n {
                            let i = choose|i: int|
                                0 <= i < snapshots.len() && (#[trigger] snapshots[i]).step == k + 1
                                    && snapshots[i].fuel == snapshot_due(m0, k)->0;
                            assert(more[i] == snapshots[i]);
                        } else {
                            assert(more[snapshots.len() as int] == one);
                        }
                    }
                    assert forall|i: int| 0 <= i < more.len() implies (#[trigger] more[i]).step > 0
                        && snapshot_due(m0, (more[i].step - 1) as nat) == Some(more[i].fuel) by {
                        if i < snapshots.len() {
                            assert(more[i] == snapshots[i]);
                        }
                    }
                    lemma_recorded(m0, next, more, (turns - 1) as nat);
                },
                Progress::Finished => {
                    assert(snapshot_due(m0, n) is None);
                },
            }
        } else if m.finished {
            assert(m.ran(snapshots, turns) == (m, Ok::<Seq<Snapshot>, TrapView>(snapshots)));
        }
    }
}

/// A run takes a snapshot of every step at which one is due and of no other, with the fuel that is
/// told there.
pub proof fn law_every_snapshot_that_is_due_is_taken(m: MachineView, turns: nat)
    requires
        running(m),
        m.steps == 0,
        turns <= u64::MAX,
    ensures
        m.ran(Seq::empty(), turns) matches (f, Ok(snapshots)) ==> records(
            m,
            snapshots,
            f.steps as nat,
        ),
{
    lemma_recorded(m, m, Seq::empty(), turns);
}

/// A charge takes away what was pushed for it, and then only the meter has moved. It stops the
/// program only when the fuel is spent.
pub proof fn law_a_charge_changes_only_the_meter(m: MachineView, instructions: i32)
    ensures
        m.pushed(Value::I32(instructions)).charged().0 == (MachineView {
            meter: m.meter.after((instructions as u32) as nat),
            ..m
        }),
        m.pushed(Value::I32(instructions)).charged().1 matches Err(t) ==> t is OutOfFuel,
{
    reveal(MachineView::charged);
    assert(m.stack.push(Value::I32(instructions)).drop_last() =~= m.stack);
}

/// Does an instruction reach no further into memory than a load or a store does?
pub open spec fn is_ordinary(op: Operator) -> bool {
    match op {
        Operator::Call { .. }
        | Operator::CallIndirect { .. }
        | Operator::MemoryFill
        | Operator::MemoryCopy
        | Operator::MemoryInit { .. } => false,
        _ => true,
    }
}

/// A page and the one behind it.
pub open spec fn two_pages(p: int) -> Set<u32> {
    pages_between(p, p + 1)
}

/// Are all pages touched among two that are side by side?
pub open spec fn within_two_pages(pages: Option<Set<u32>>) -> bool {
    pages matches Some(s) && exists|p: int| s.subset_of(#[trigger] two_pages(p))
}

proof fn lemma_untouched(m: MemoryView)
    requires
        m.accessed == Some(Set::<u32>::empty()),
    ensures
        within_two_pages(m.accessed),
{
    assert(Set::<u32>::empty().subset_of(two_pages(0)));
}

proof fn lemma_touched(m: MemoryView, start: int, len: nat)
    requires
        m.accessed == Some(Set::<u32>::empty()),
        0 <= start,
        len <= 8,
    ensures
        within_two_pages(m.touched(start, len).0.accessed),
{
    let first = start / PAGE_SIZE as int;
    let last = (start + len - 1) / PAGE_SIZE as int;
    lemma_untouched(m);
    if len > 0 {
        assert(first <= last <= first + 1);
        assert(Set::<u32>::empty().union(pages_between(first, last)).subset_of(
            two_pages(first),
        ));
    }
}

proof fn lemma_branched_touches_nothing(m: MachineView, depth: u32)
    ensures
        m.left().0.memory == m.memory,
        m.branched(depth).0.memory == m.memory,
{
    reveal(MachineView::branched);
    reveal(MachineView::left);
}

proof fn lemma_branching_touches_nothing(m: MachineView, op: Operator)
    ensures
        m.branching(op).0.memory == m.memory,
{
    reveal(MachineView::branching);
    let n = m.popped_i32().0;
    match op {
        Operator::Br { relative_depth } => lemma_branched_touches_nothing(m, relative_depth),
        Operator::BrIf { relative_depth } => lemma_branched_touches_nothing(n, relative_depth),
        Operator::BrTable { targets, default } => {
            if let Ok(index) = m.popped_i32().1 {
                let depth = if (index as u32) < targets@.len() {
                    targets@[(index as u32) as int]
                } else {
                    default
                };
                lemma_branched_touches_nothing(n, depth);
            }
        },
        _ => lemma_branched_touches_nothing(m, 0),
    }
}

proof fn lemma_values_touch_nothing(m: MachineView, op: Operator)
    ensures
        m.selected().0.memory == m.memory,
        m.variable(op).0.memory == m.memory,
{
    reveal(MachineView::selected);
    reveal(MachineView::variable);
}

proof fn lemma_constructs_touch_nothing(
    m: MachineView,
    f: Function,
    pc: u32,
    ty: BlockType,
    is_loop: bool,
)
    ensures
        m.block(f, pc, ty, is_loop).0.memory == m.memory,
        m.branch_if(f, pc, ty).0.memory == m.memory,
{
    reveal(MachineView::block);
    reveal(MachineView::branch_if);
}

proof fn lemma_bulk_touches_nothing(m: MachineView, op: Operator)
    requires
        is_ordinary(op),
    ensures
        m.bulk(op).0.memory.accessed == m.memory.accessed,
{
    reveal(MachineView::bulk);
}

proof fn lemma_plain_touches_nothing(m: MachineView, op: Operator, f: Function, pc: u32)
    requires
        is_ordinary(op),
        load_shape(op) is None,
        store_shape(op) is None,
    ensures
        m.executed(op, f, pc).0.memory.accessed == m.memory.accessed,
{
    reveal(MachineView::executed);
    lemma_branching_touches_nothing(m, op);
    lemma_values_touch_nothing(m, op);
    lemma_bulk_touches_nothing(m, op);
    match op {
        Operator::Block { blockty } | Operator::If { blockty } => {
            lemma_constructs_touch_nothing(m, f, pc, blockty, false);
        },
        Operator::Loop { blockty } => {
            lemma_constructs_touch_nothing(m, f, pc, blockty, true);
        },
        _ => {},
    }
}

proof fn lemma_load_touches(m: MachineView, op: Operator, offset: u64, width: nat)
    requires
        m.memory.accessed == Some(Set::<u32>::empty()),
        width <= 8,
    ensures
        within_two_pages(m.load(op, offset, width).0.memory.accessed),
{
    reveal(MachineView::load);
    lemma_untouched(m.memory);
    if let (k, Ok(address)) = m.popped_address(offset) {
        lemma_touched(k.memory, address as int, width);
    }
}

proof fn lemma_store_touches(m: MachineView, offset: u64, kind: Kind, width: nat)
    requires
        m.memory.accessed == Some(Set::<u32>::empty()),
        width <= 8,
    ensures
        within_two_pages(m.store(offset, kind, width).0.memory.accessed),
{
    reveal(MachineView::store);
    lemma_untouched(m.memory);
    let (rest, v) = popped(m.stack, kind);
    if let Ok(v) = v {
        if let (k, Ok(address)) = m.with_stack(rest).popped_address(offset) {
            lemma_le_bytes_len(v.payload_of() as nat, width);
            lemma_touched(k.memory, address as int, width);
        }
    }
}

/// A witness is small. Unless it fills, copies or initialises memory, or calls, an instruction
/// touches at most two pages, and those side by side, however much memory there is.
pub proof fn law_an_ordinary_instruction_touches_two_pages_at_most(m: MachineView)
    requires
        m.image.defined(m.top().function) matches Some(position) ==> {
            let ops = m.image.functions@[position].ops@;
            m.top().pc < ops.len() ==> is_ordinary(ops[m.top().pc as int])
        },
    ensures
        within_two_pages(Some(m.next_pages())),
{
    let start = m.noting();
    lemma_untouched(start.memory);
    assert(start.top() == m.top());
    if !start.finished && start.frames.len() > 0 {
        if let Some(position) = start.image.defined(start.top().function) {
            let f = start.image.functions@[position];
            let pc = start.top().pc;
            if pc < f.ops@.len() {
                let op = f.ops@[pc as int];
                let (stack, handled) = applied(op, start.advanced().stack);
                let n = start.advanced().with_stack(stack);
                if handled == Ok::<_, TrapView>(false) {
                    if let Some((offset, width)) = load_shape(op) {
                        lemma_load_touches(n, op, offset, width);
                        assert(n.executed(op, f, pc) == n.load(op, offset, width)) by {
                            reveal(MachineView::executed);
                        }
                    } else if let Some((offset, kind, width)) = store_shape(op) {
                        lemma_store_touches(n, offset, kind, width);
                        assert(n.executed(op, f, pc) == n.store(offset, kind, width)) by {
                            reveal(MachineView::executed);
                        }
                    } else {
                        lemma_plain_touches_nothing(n, op, f, pc);
                    }
                }
            }
        }
    }
}

/// Was an instruction executed, even if it trapped?
spec fn is_executed(o: Outcome) -> bool {
    !(o.1 matches Err(t) && t is Unsupported)
}

proof fn lemma_calls_are_executed(m: MachineView, index: u32)
    ensures
        is_executed(m.called(index)),
{
    reveal(MachineView::called);
    reveal(MachineView::hosted);
    reveal(MachineView::entered);
    reveal(MachineView::charged);
}

proof fn lemma_memory_is_executed(m: MachineView, op: Operator)
    ensures
        is_executed(m.bulk(op)),
{
    reveal(MachineView::bulk);
    reveal(MachineView::initialised);
}

proof fn lemma_branches_are_executed(m: MachineView, op: Operator)
    ensures
        is_executed(m.branching(op)),
{
    reveal(MachineView::branching);
    reveal(MachineView::branched);
    reveal(MachineView::left);
}

/// What the rules on references let through, the interpreter executes: an instruction it has a
/// case for is refused on submission or never ends in [`TrapView::Unsupported`]. A tail call is
/// the exception; no admitted feature allows one.
pub proof fn law_admitted_instructions_are_executed(m: MachineView)
    requires
        m.image.defined(m.top().function) matches Some(position) ==> {
            let ops = m.image.functions@[position].ops@;
            m.top().pc < ops.len() ==> {
                let op = ops[m.top().pc as int];
                reference_touched(op) is None && !(op is Other) && !(op is ReturnCall)
            }
        },
    ensures
        !(m.stepped().1 matches Err(t) && t is Unsupported),
{
    if !m.finished && m.frames.len() > 0 {
        if let Some(position) = m.image.defined(m.top().function) {
            let f = m.image.functions@[position];
            let pc = m.top().pc;
            if pc < f.ops@.len() {
                let op = f.ops@[pc as int];
                let (stack, handled) = applied(op, m.advanced().stack);
                let n = m.advanced().with_stack(stack);
                lemma_numbers_are_executed(op, m.advanced().stack);
                if handled == Ok::<_, TrapView>(false) {
                    lemma_rest_is_executed(n, op, f, pc);
                }
            }
        }
    }
}

proof fn lemma_numbers_are_executed(op: Operator, stack: Seq<Value>)
    ensures
        !(applied(op, stack).1 matches Err(t) && t is Unsupported),
        applied(op, stack).1 == Ok::<_, TrapView>(false) <==> shape(op) is NotNumeric,
{
}

proof fn lemma_rest_is_executed(m: MachineView, op: Operator, f: Function, pc: u32)
    requires
        shape(op) is NotNumeric,
        reference_touched(op) is None,
        !(op is Other),
        !(op is ReturnCall),
    ensures
        is_executed(m.executed(op, f, pc)),
{
    reveal(MachineView::executed);
    lemma_memory_is_executed(m, op);
    lemma_branches_are_executed(m, op);
    match op {
        Operator::Call { function_index } => lemma_calls_are_executed(m, function_index),
        Operator::CallIndirect { type_index } => {
            reveal(MachineView::called_indirect);
            let (n, slot) = m.popped_i32();
            if let Ok(slot) = slot {
                if (slot as u32) < n.table.len() {
                    if let Some(target) = n.table[(slot as u32) as int] {
                        lemma_calls_are_executed(n, target);
                    }
                }
            }
        },
        Operator::Block { blockty } | Operator::Loop { blockty } => {
            reveal(MachineView::block);
        },
        Operator::If { blockty } => {
            reveal(MachineView::branch_if);
        },
        Operator::Select | Operator::TypedSelect { .. } => {
            reveal(MachineView::selected);
        },
        Operator::LocalGet { .. }
        | Operator::LocalSet { .. }
        | Operator::LocalTee { .. }
        | Operator::GlobalGet { .. }
        | Operator::GlobalSet { .. } => {
            reveal(MachineView::variable);
        },
        _ => {
            reveal(MachineView::load);
            reveal(MachineView::store);
        },
    }
}

/// `br_table` is `br`: it takes an index off the stack, read as unsigned, and branches to the
/// target at that index, or to the default past the last.
pub proof fn law_br_table_is_br(
    m: MachineView,
    targets: Vec<u32>,
    default: u32,
    f: Function,
    pc: u32,
)
    ensures
        m.executed(Operator::BrTable { targets, default }, f, pc) == (match m.popped_i32() {
            (n, Err(t)) => (n, Err(t)),
            (n, Ok(index)) => n.executed(
                Operator::Br {
                    relative_depth: if (index as u32) < targets@.len() {
                        targets@[(index as u32) as int]
                    } else {
                        default
                    },
                },
                f,
                pc,
            ),
        }),
{
    reveal(MachineView::executed);
    reveal(MachineView::branching);
}

/// A load gives back what a store of the same width stored at the same address, cut to that many
/// bytes and widened as the load widens. The store changed those bytes and no others; the load
/// changes none.
pub proof fn law_a_load_gives_back_a_store(
    m: MachineView,
    stores: Operator,
    base: i32,
    v: Value,
    loads: Operator,
    again: i32,
    f: Function,
    pc: u32,
)
    requires
        store_shape(stores) matches Some((offset, kind, width)) && kind_of(v) == kind && (
        load_shape(loads) matches Some((from, size)) && size == width && (base as u32) + offset == (
        again as u32) + from),
        m.pushed(Value::I32(base)).pushed(v).executed(stores, f, pc).1 is Ok,
    ensures
        ({
            let (offset, _, width) = store_shape(stores)->0;
            let at = (base as u32) + offset;
            let stored = m.pushed(Value::I32(base)).pushed(v).executed(stores, f, pc).0;
            let loaded_back = stored.pushed(Value::I32(again)).executed(loads, f, pc);
            &&& stored.stack == m.stack
            &&& stored.memory.bytes.len() == m.memory.bytes.len()
            &&& at + width <= m.memory.bytes.len()
            &&& forall|i: int|
                0 <= i < m.memory.bytes.len() && !(at <= i < at + width)
                    ==> #[trigger] stored.memory.bytes[i] == m.memory.bytes[i]
            &&& loaded_back.1 == Ok::<_, TrapView>(Progress::Continued)
            &&& loaded_back.0.memory.bytes == stored.memory.bytes
            &&& loaded_back.0.stack == m.stack.push(
                loaded(loads, (v.payload_of() as nat % pow256(width)) as u64),
            )
        }),
{
    let (offset, kind, width) = store_shape(stores)->0;
    let (from, _) = load_shape(loads)->0;
    let before = m.pushed(Value::I32(base)).pushed(v);
    assert(before.executed(stores, f, pc) == before.store(offset, kind, width)) by {
        reveal(MachineView::executed);
    }
    reveal(MachineView::store);
    reveal(MachineView::load);
    assert(before.stack.drop_last() =~= m.stack.push(Value::I32(base)));
    assert(before.stack.drop_last().drop_last() =~= m.stack);
    let at = ((base as u32) + offset) as u64;
    let data = le_bytes(v.payload_of() as nat, width);
    lemma_le_bytes_len(v.payload_of() as nat, width);
    lemma_le_value_of_low_bytes(v.payload_of() as nat, width);
    let stored = before.store(offset, kind, width).0;
    assert(stored.memory.bytes == overwritten(m.memory.bytes, at as int, data));
    let after = stored.pushed(Value::I32(again));
    assert(after.executed(loads, f, pc) == after.load(loads, from, width)) by {
        reveal(MachineView::executed);
    }
    assert(after.stack.drop_last() =~= m.stack);
    assert(stored.memory.bytes.subrange(at as int, at + width) =~= data);
}

} // verus!
