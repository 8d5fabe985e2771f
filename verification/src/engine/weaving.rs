//! What instrumentation does not change.
//!
//! An instrumented function is a plain one with instructions woven in: in front of some
//! instructions a charge, in front of some the sequence that fixes a floating-point operand, and
//! behind some the one that fixes a result. What the plain module does when each instruction is
//! paid for and its operand fixed is a function on its states. Every module woven from it does
//! the same, whatever is fixed behind its instructions, because there the interpreter leaves
//! nothing to fix. So the ways of canonicalizing agree, and metering changes no answer.
use crate::canon::{
    CANONICAL_NAN_F32, CANONICAL_NAN_F64, FloatWidth, fixed, law_fixing_changes_only_nans,
    law_interpreted_nans_are_canonical, minted,
};
use crate::engine::execution::{started, table_of, with_data, with_segment, with_segments};
use crate::engine::image::{Control, DataSegment, ElementSegment, Function, GlobalSpec, Image};
use crate::engine::machine::{Limits, Progress};
use crate::engine::memory::MemoryView;
use crate::engine::numeric::{Kind, TrapView, applied, binary, kind_of, popped, shape};
use crate::engine::operator::{BlockType, Operator, same_operator};
use crate::engine::semantics::{
    FrameView, MachineView, Outcome, block_arity, less_or_zero, load_shape, next_index, store_shape,
    zero_value,
};
use crate::engine::witness::LabelWitness;
use crate::fuel::MeterState;
use crate::hash::Digest;
use crate::state::{Value, output_hash};
use crate::wasm::ValType;
use vstd::prelude::*;

verus! {

/// What is woven into a function.
pub struct Weave {
    /// How much is charged in front of each instruction, or zero for no charge.
    pub amounts: Seq<u32>,
    /// The width of the operand that is fixed in front of each instruction, if one is.
    pub before: Seq<Option<FloatWidth>>,
    /// The width of the result that is fixed behind each instruction, if one is.
    pub after: Seq<Option<FloatWidth>>,
    /// How many locals the plain function has, its parameters among them.
    pub locals: nat,
    /// How many more the woven one has.
    pub more: nat,
    /// The local that keeps an `f32` that is fixed.
    pub scratch_f32: u32,
    /// The local that keeps an `f64` that is fixed.
    pub scratch_f64: u32,
}

/// How many instructions fix a value.
pub open spec fn fix_len(width: Option<FloatWidth>) -> int {
    if width is Some {
        8
    } else {
        0
    }
}

impl Weave {
    /// How many instructions the plain function has.
    pub open spec fn len(self) -> nat {
        self.amounts.len()
    }

    /// How many instructions pay for one.
    pub open spec fn charge_len(self, i: int) -> int {
        if self.amounts[i] > 0 {
            2
        } else {
            0
        }
    }

    /// Where what stands for an instruction begins.
    pub open spec fn begin(self, i: int) -> int
        decreases i,
    {
        if i <= 0 {
            0
        } else {
            self.begin(i - 1) + self.charge_len(i - 1) + fix_len(self.before[i - 1]) + 1
                + fix_len(self.after[i - 1])
        }
    }

    /// Where an instruction has been paid for.
    pub open spec fn paid(self, i: int) -> int {
        self.begin(i) + self.charge_len(i)
    }

    /// Where an instruction itself is.
    pub open spec fn moved(self, i: int) -> int {
        self.paid(i) + fix_len(self.before[i])
    }

    /// The local that keeps a value of a width.
    pub open spec fn scratch(self, width: FloatWidth) -> u32 {
        match width {
            FloatWidth::F32 => self.scratch_f32,
            FloatWidth::F64 => self.scratch_f64,
        }
    }

    /// Is there a local for a width among those added?
    pub open spec fn keeps(self, width: FloatWidth) -> bool {
        self.locals <= self.scratch(width) < self.locals + self.more
    }
}

/// Is nothing fixed around an instruction?
pub open spec fn is_bare(w: Weave, i: int) -> bool {
    0 <= i < w.len() && w.before[i] is None && w.after[i] is None
}

/// Is a construct's `end` and `else` where it was?
pub open spec fn control_moved(w: Weave, c: Option<Control>, d: Option<Control>) -> bool {
    match (c, d) {
        (None, None) => true,
        (Some(c), Some(d)) => {
            &&& is_bare(w, c.end as int)
            &&& d.end == w.moved(c.end as int)
            &&& match (c.otherwise, d.otherwise) {
                (None, None) => true,
                (Some(x), Some(y)) => is_bare(w, x as int) && y == w.moved(x as int),
                _ => false,
            }
        },
        _ => false,
    }
}

/// The comparison that tells a NaN.
pub open spec fn unequal(width: FloatWidth) -> Operator {
    match width {
        FloatWidth::F32 => Operator::F32Ne,
        FloatWidth::F64 => Operator::F64Ne,
    }
}

/// The canonical NaN.
pub open spec fn canonical(width: FloatWidth) -> Operator {
    match width {
        FloatWidth::F32 => Operator::F32Const { value: CANONICAL_NAN_F32 },
        FloatWidth::F64 => Operator::F64Const { value: CANONICAL_NAN_F64 },
    }
}

/// Do the instructions from one on fix a value on top of the stack?
pub open spec fn fixes_at(g: Function, width: FloatWidth, scratch: u32, at: int) -> bool {
    &&& 0 <= at && at + 8 <= g.ops@.len() == g.control@.len()
    &&& g.ops@[at] == (Operator::LocalTee { local_index: scratch })
    &&& g.ops@[at + 1] == (Operator::LocalGet { local_index: scratch })
    &&& g.ops@[at + 2] == unequal(width)
    &&& g.ops@[at + 3] == (Operator::If { blockty: BlockType::Value })
    &&& g.ops@[at + 4] == canonical(width)
    &&& g.ops@[at + 5] == Operator::Else
    &&& g.ops@[at + 6] == (Operator::LocalGet { local_index: scratch })
    &&& g.ops@[at + 7] == Operator::End
    &&& g.control@[at + 3] == Some(
        Control { end: (at + 7) as u32, otherwise: Some((at + 5) as u32) },
    )
}

/// Does an instruction name only locals that there are?
pub open spec fn names_locals(op: Operator, locals: nat) -> bool {
    match op {
        Operator::LocalGet { local_index } => local_index < locals,
        Operator::LocalSet { local_index } => local_index < locals,
        Operator::LocalTee { local_index } => local_index < locals,
        _ => true,
    }
}

/// Does what stands for an instruction pay for it, fix its operand, execute it and fix its
/// result, as far as each is asked for?
pub open spec fn stands_for(charge: u32, w: Weave, f: Function, g: Function, i: int) -> bool {
    let (at, op) = (w.begin(i), f.ops@[i]);
    &&& w.amounts[i] > 0 ==> g.ops@[at] == (Operator::I32Const { value: w.amounts[i] as i32 })
    &&& w.amounts[i] > 0 ==> g.ops@[at + 1] == (Operator::Call { function_index: charge })
    &&& w.before[i] matches Some(width) ==> w.keeps(width) && fixes_at(
        g,
        width,
        w.scratch(width),
        w.paid(i),
    )
    &&& same_operator(op, g.ops@[w.moved(i)])
    &&& control_moved(w, f.control@[i], g.control@[w.moved(i)])
    &&& w.after[i] matches Some(width) ==> minted(op) == Some(width) && w.keeps(width)
        && fixes_at(g, width, w.scratch(width), w.moved(i) + 1)
    &&& op != (Operator::Call { function_index: charge })
    &&& names_locals(op, w.locals)
}

/// Is one function another with instructions woven in?
#[verifier::opaque]
pub open spec fn woven(charge: u32, w: Weave, f: Function, g: Function) -> bool {
    &&& w.len() == w.before.len() == w.after.len() == f.ops@.len() == f.control@.len()
    &&& g.ops@.len() == g.control@.len() == w.begin(w.len() as int)
    &&& g.ops@.len() < u32::MAX
    &&& g.local_types@.len() == f.local_types@.len() + w.more
    &&& forall|k: int|
        0 <= k < f.local_types@.len() ==> (#[trigger] f.local_types@[k]).deep_view()
            == g.local_types@[k].deep_view()
    &&& forall|i: int| 0 <= i < w.len() ==> #[trigger] stands_for(charge, w, f, g, i)
}

/// Are two modules the same but for their code?
pub open spec fn same_but_code(a: Image, b: Image) -> bool {
    &&& a.types.deep_view() == b.types.deep_view()
    &&& a.func_types@ == b.func_types@
    &&& a.host_imports@ == b.host_imports@
    &&& a.memory == b.memory
    &&& a.globals@ == b.globals@
    &&& a.table == b.table
    &&& a.elements.deep_view() == b.elements.deep_view()
    &&& a.data.deep_view() == b.data.deep_view()
    &&& a.entry == b.entry
    &&& a.charge == b.charge
}

/// Are the locals of a module's functions, parameters among them, as many as it is said?
pub open spec fn counts_locals(w: Seq<Weave>, plain: Image) -> bool {
    forall|index: u32|
        match (#[trigger] plain.signature_of(index), plain.defined(index)) {
            (Some(s), Some(p)) => w[p].locals == s.params@.len()
                + plain.functions@[p].local_types@.len(),
            _ => true,
        }
}

/// Is one module another with instructions woven in? Nothing in the plain one calls `charge`, and
/// all but the code is the same.
pub open spec fn weaves(w: Seq<Weave>, plain: Image, image: Image) -> bool {
    &&& same_but_code(plain, image)
    &&& plain.functions@.len() == image.functions@.len() == w.len()
    &&& forall|p: int|
        0 <= p < w.len() ==> #[trigger] woven(
            plain.charge,
            w[p],
            plain.functions@[p],
            image.functions@[p],
        )
    &&& counts_locals(w, plain)
    &&& table_of(plain) matches Ok(t) ==> forall|i: int|
        0 <= i < t.len() ==> #[trigger] t[i] != Some(plain.charge)
}

/// Does a label lead to the same places?
pub open spec fn label_moved(w: Weave, l: LabelWitness, k: LabelWitness) -> bool {
    &&& k == (LabelWitness { branch_target: k.branch_target, end: k.end, ..l })
    &&& l.branch_target <= w.len()
    &&& k.branch_target == w.begin(l.branch_target as int)
    &&& is_bare(w, l.end as int)
    &&& k.end == w.moved(l.end as int)
}

/// Does a counter stand at the same instruction, in front of its charge or past it?
pub open spec fn counter_moved(w: Weave, p: u32, q: u32, paid: bool) -> bool {
    &&& p <= w.len()
    &&& paid ==> p < w.len()
    &&& q == if paid {
        w.paid(p as int)
    } else {
        w.begin(p as int)
    }
}

/// Is one frame the other, moved, with room for what is fixed?
pub open spec fn frame_moved(w: Weave, f: FrameView, g: FrameView, paid: bool) -> bool {
    &&& g == (FrameView { pc: g.pc, labels: g.labels, locals: g.locals, ..f })
    &&& f.locals.len() == w.locals
    &&& g.locals.len() == w.locals + w.more
    &&& g.locals.take(f.locals.len() as int) == f.locals
    &&& counter_moved(w, f.pc, g.pc, paid)
    &&& f.labels.len() == g.labels.len()
    &&& forall|k: int|
        0 <= k < f.labels.len() ==> label_moved(w, #[trigger] f.labels[k], g.labels[k])
}

/// What is woven into a frame's function.
pub open spec fn weave_of(w: Seq<Weave>, image: Image, f: FrameView) -> Weave {
    w[image.defined(f.function)->0]
}

/// Is one frame the other, in the module with instructions woven in?
pub open spec fn frame_twin(
    w: Seq<Weave>,
    image: Image,
    f: FrameView,
    g: FrameView,
    paid: bool,
) -> bool {
    image.defined(f.function) is Some && frame_moved(weave_of(w, image, f), f, g, paid)
}

/// Are two states the same, but for what is woven into the second one's module and how many
/// instructions it has executed? The next instruction may have been paid for already.
pub open spec fn twins(w: Seq<Weave>, a: MachineView, paid: bool, b: MachineView) -> bool {
    &&& weaves(w, a.image, b.image)
    &&& table_of(a.image) == Ok::<_, TrapView>(a.table)
    &&& b == (MachineView { image: b.image, frames: b.frames, steps: b.steps, ..a })
    &&& a.frames.len() == b.frames.len()
    &&& forall|k: int|
        0 <= k < a.frames.len() ==> frame_twin(
            w,
            a.image,
            #[trigger] a.frames[k],
            b.frames[k],
            paid && k == a.frames.len() - 1,
        )
}

/// Did two instructions end alike?
spec fn alike(w: Seq<Weave>, a: Outcome, paid: bool, b: Outcome) -> bool {
    a.1 == b.1 && (a.1 is Ok ==> twins(w, a.0, paid, b.0))
}

pub proof fn lemma_begin(w: Weave, i: int, j: int)
    requires
        0 <= i <= j,
    ensures
        0 <= w.begin(i),
        w.begin(i) + (j - i) <= w.begin(j),
        i < j ==> w.moved(i) + 1 + fix_len(w.after[i]) <= w.begin(j),
        w.begin(i + 1) == w.moved(i) + 1 + fix_len(w.after[i]),
        w.begin(i) <= w.paid(i) <= w.moved(i),
    decreases j,
{
    if i < j {
        lemma_begin(w, i, j - 1);
    } else if i > 0 {
        lemma_begin(w, i - 1, i - 1);
    }
}

proof fn lemma_same_arity(a: Image, b: Image, ty: BlockType)
    requires
        same_but_code(a, b),
    ensures
        block_arity(a, ty) == block_arity(b, ty),
{
    assert(a.types.deep_view().len() == a.types@.len());
    assert(b.types.deep_view().len() == b.types@.len());
    if let BlockType::FuncType(index) = ty {
        if index < a.types@.len() {
            lemma_same_type(a, b, index as int);
        }
    }
}

proof fn lemma_same_type(a: Image, b: Image, i: int)
    requires
        same_but_code(a, b),
        0 <= i < a.types@.len(),
    ensures
        i < b.types@.len(),
        a.types@[i].deep_view() == b.types@[i].deep_view(),
        a.types@[i].params@.len() == b.types@[i].params@.len(),
        a.types@[i].results@.len() == b.types@[i].results@.len(),
{
    assert(a.types.deep_view().len() == a.types@.len());
    assert(b.types.deep_view().len() == b.types@.len());
    let (s, t) = (a.types@[i], b.types@[i]);
    assert(a.types.deep_view()[i] == s.deep_view());
    assert(b.types.deep_view()[i] == t.deep_view());
    assert(s.params.deep_view().len() == s.params@.len());
    assert(t.params.deep_view().len() == t.params@.len());
    assert(s.results.deep_view().len() == s.results@.len());
    assert(t.results.deep_view().len() == t.results@.len());
}

proof fn lemma_same_signature(a: Image, b: Image, index: u32)
    requires
        same_but_code(a, b),
    ensures
        match (a.signature_of(index), b.signature_of(index)) {
            (None, None) => true,
            (Some(s), Some(t)) => s.deep_view() == t.deep_view() && s.params@.len()
                == t.params@.len() && s.results@.len() == t.results@.len(),
            _ => false,
        },
{
    assert(a.types.deep_view().len() == a.types@.len());
    assert(b.types.deep_view().len() == b.types@.len());
    if let Some(_) = a.signature_of(index) {
        lemma_same_type(a, b, a.func_types@[index as int] as int);
    }
}

pub proof fn lemma_new_top(
    w: Seq<Weave>,
    a: MachineView,
    was: bool,
    b: MachineView,
    f: FrameView,
    paid: bool,
    g: FrameView,
)
    requires
        twins(w, a, was, b),
        a.frames.len() > 0,
        frame_twin(w, a.image, f, g, paid),
    ensures
        twins(w, a.with_top(f), paid, b.with_top(g)),
{
    let (c, d) = (a.with_top(f), b.with_top(g));
    assert forall|k: int| 0 <= k < c.frames.len() implies frame_twin(
        w,
        c.image,
        #[trigger] c.frames[k],
        d.frames[k],
        paid && k == c.frames.len() - 1,
    ) by {
        if k < a.frames.len() - 1 {
            assert(c.frames[k] == a.frames[k]);
            assert(d.frames[k] == b.frames[k]);
        }
    }
}

proof fn lemma_top(w: Seq<Weave>, a: MachineView, b: MachineView, f: FrameView, g: FrameView)
    requires
        twins(w, a, false, b),
        a.frames.len() > 0,
        frame_twin(w, a.image, f, g, false),
    ensures
        twins(w, a.with_top(f), false, b.with_top(g)),
{
    lemma_new_top(w, a, false, b, f, false, g);
}

proof fn lemma_variable(w: Seq<Weave>, a: MachineView, b: MachineView, op: Operator)
    requires
        twins(w, a, false, b),
        a.frames.len() > 0,
        names_locals(op, weave_of(w, a.image, a.top()).locals),
    ensures
        alike(w, a.variable(op), false, b.variable(op)),
{
    reveal(MachineView::variable);
    let (f, g) = (a.top(), b.top());
    assert(frame_twin(w, a.image, a.frames[a.frames.len() - 1], b.frames[a.frames.len() - 1], false));
    assert forall|i: u32, v: Value, s: Seq<Value>| i < f.locals.len() implies alike(
        w,
        #[trigger] a.with_stack(s).local_set(i, v), false,
        b.with_stack(s).local_set(i, v),
    ) by {
        assert(g.locals.update(i as int, v).take(f.locals.len() as int) =~= f.locals.update(
            i as int,
            v,
        ));
        lemma_top(
            w,
            a.with_stack(s),
            b.with_stack(s),
            FrameView { locals: f.locals.update(i as int, v), ..f },
            FrameView { locals: g.locals.update(i as int, v), ..g },
        );
    }
    match op {
        Operator::LocalGet { local_index } => {
            assert(g.locals.take(f.locals.len() as int)[local_index as int]
                == g.locals[local_index as int]);
        },
        Operator::LocalSet { local_index } => {
            if a.stack.len() > 0 && local_index < f.locals.len() {
                assert(alike(
                    w,
                    a.with_stack(a.stack.drop_last()).local_set(local_index, a.stack.last()), false,
                    b.with_stack(a.stack.drop_last()).local_set(local_index, a.stack.last()),
        ));
            }
        },
        Operator::LocalTee { local_index } => {
            if a.stack.len() > 0 && local_index < f.locals.len() {
                assert(a.with_stack(a.stack) == a && b.with_stack(a.stack) == b);
                assert(alike(
                    w,
                    a.with_stack(a.stack).local_set(local_index, a.stack.last()), false,
                    b.with_stack(a.stack).local_set(local_index, a.stack.last()),
        ));
            }
        },
        _ => {},
    }
}

/// Are two states the same but for the module, the frames and the count?
spec fn recast(a: MachineView, b: MachineView) -> bool {
    b == (MachineView { image: b.image, frames: b.frames, steps: b.steps, ..a })
        && same_but_code(a.image, b.image)
}

/// Did two instructions end alike, leaving both stacks of frames alone?
spec fn aside(a: MachineView, b: MachineView, c: Outcome, d: Outcome) -> bool {
    &&& c.1 == d.1
    &&& recast(c.0, d.0)
    &&& c.0.image == a.image && d.0.image == b.image
    &&& c.0.frames == a.frames && d.0.frames == b.frames
    &&& c.0.table == a.table
}

proof fn lemma_aside(w: Seq<Weave>, a: MachineView, b: MachineView, c: Outcome, d: Outcome)
    requires
        twins(w, a, false, b),
        aside(a, b, c, d),
    ensures
        alike(w, c, false, d),
{
}

proof fn lemma_selected(a: MachineView, b: MachineView)
    requires
        recast(a, b),
    ensures
        aside(a, b, a.selected(), b.selected()),
{
    reveal(MachineView::selected);
}

proof fn lemma_initialised(a: MachineView, b: MachineView, index: u32)
    requires
        recast(a, b),
    ensures
        aside(a, b, a.initialised(index), b.initialised(index)),
{
    reveal(MachineView::initialised);
    let (s, t) = (a.image.data, b.image.data);
    assert(s.deep_view().len() == s@.len() && t.deep_view().len() == t@.len());
    if index < s@.len() {
        assert(s.deep_view()[index as int] == s@[index as int].deep_view());
        assert(t.deep_view()[index as int] == t@[index as int].deep_view());
    }
}

proof fn lemma_bulk(a: MachineView, b: MachineView, op: Operator)
    requires
        recast(a, b),
    ensures
        aside(a, b, a.bulk(op), b.bulk(op)),
{
    reveal(MachineView::bulk);
    if let Operator::MemoryInit { data_index } = op {
        lemma_initialised(a, b, data_index);
    }
}

proof fn lemma_load(a: MachineView, b: MachineView, op: Operator, offset: u64, width: nat)
    requires
        recast(a, b),
    ensures
        aside(a, b, a.load(op, offset, width), b.load(op, offset, width)),
{
    reveal(MachineView::load);
}

proof fn lemma_store(a: MachineView, b: MachineView, offset: u64, kind: Kind, width: nat)
    requires
        recast(a, b),
    ensures
        aside(a, b, a.store(offset, kind, width), b.store(offset, kind, width)),
{
    reveal(MachineView::store);
}

proof fn lemma_left(w: Seq<Weave>, a: MachineView, b: MachineView)
    requires
        twins(w, a, false, b),
        a.frames.len() > 0,
    ensures
        alike(w, a.left(), false, b.left()),
{
    reveal(MachineView::left);
    let n = a.frames.len() - 1;
    assert(frame_twin(w, a.image, a.frames[n], b.frames[n], false));
    let (c, d) = (a.left().0, b.left().0);
    assert forall|k: int| 0 <= k < n implies frame_twin(
        w,
        a.image,
        #[trigger] c.frames[k],
        d.frames[k],
        false,
    ) by {
        assert(c.frames[k] == a.frames[k] && d.frames[k] == b.frames[k]);
    }
}

proof fn lemma_branched(w: Seq<Weave>, a: MachineView, b: MachineView, depth: u32)
    requires
        twins(w, a, false, b),
        a.frames.len() > 0,
    ensures
        alike(w, a.branched(depth), false, b.branched(depth)),
{
    reveal(MachineView::branched);
    lemma_left(w, a, b);
    let n = a.frames.len() - 1;
    let (f, g) = (a.top(), b.top());
    assert(frame_twin(w, a.image, a.frames[n], b.frames[n], false));
    if depth < f.labels.len() {
        let index = f.labels.len() - 1 - depth;
        let (l, k) = (f.labels[index], g.labels[index]);
        assert(label_moved(weave_of(w, a.image, f), l, k));
        let kept = if l.is_loop {
            index + 1
        } else {
            index
        };
        let c = FrameView { labels: f.labels.take(kept), pc: l.branch_target, ..f };
        let d = FrameView { labels: g.labels.take(kept), pc: k.branch_target, ..g };
        assert forall|i: int| 0 <= i < c.labels.len() implies label_moved(
            weave_of(w, a.image, f),
            #[trigger] c.labels[i],
            d.labels[i],
        ) by {
            assert(c.labels[i] == f.labels[i] && d.labels[i] == g.labels[i]);
        }
        if a.stack.len() >= l.arity {
            let s = a.branched(depth).0.stack;
            lemma_top(w, a.with_stack(s), b.with_stack(s), c, d);
        }
    }
}

proof fn lemma_entered(w: Seq<Weave>, a: MachineView, b: MachineView, index: u32)
    requires
        twins(w, a, false, b),
    ensures
        a.entered(index).1 == b.entered(index).1,
        a.entered(index).1 is Ok ==> twins(w, a.entered(index).0, false, b.entered(index).0),
{
    reveal(MachineView::entered);
    lemma_same_signature(a.image, b.image, index);
    let (c, d) = (a.entered(index).0, b.entered(index).0);
    if let Some(p) = a.image.defined(index) {
        assert(woven(a.image.charge, w[p], a.image.functions@[p], b.image.functions@[p]));
        reveal(woven);
        let (s, t) = (
            a.image.functions@[p].local_types,
            b.image.functions@[p].local_types,
        );
        let zero = |t: ValType| zero_value(t.deep_view());
        assert(t@.map_values(zero).take(s@.len() as int) =~= s@.map_values(zero)) by {
            assert forall|i: int| 0 <= i < s@.len() implies zero(#[trigger] s@[i]) == zero(
                t@[i],
            ) by {}
        }
        if a.entered(index).1 is Ok {
            let (x, y) = (c.frames.last(), d.frames.last());
            assert(y.locals.take(x.locals.len() as int) =~= x.locals);
        }
        if a.entered(index).1 is Ok {
            assert forall|k: int| 0 <= k < c.frames.len() implies frame_twin(
                w,
                c.image,
                #[trigger] c.frames[k],
                d.frames[k],
        false,
    ) by {
                if k < a.frames.len() {
                    assert(c.frames[k] == a.frames[k] && d.frames[k] == b.frames[k]);
                }
            }
        }
    }
}

proof fn lemma_called(w: Seq<Weave>, a: MachineView, b: MachineView, index: u32)
    requires
        twins(w, a, false, b),
        index != a.image.charge,
    ensures
        alike(w, a.called(index), false, b.called(index)),
{
    reveal(MachineView::called);
    reveal(MachineView::hosted);
    lemma_entered(w, a, b, index);
}

proof fn lemma_called_indirect(w: Seq<Weave>, a: MachineView, b: MachineView, index: u32)
    requires
        twins(w, a, false, b),
    ensures
        alike(w, a.called_indirect(index), false, b.called_indirect(index)),
{
    reveal(MachineView::called_indirect);
    let (c, slot) = a.popped_i32();
    let (d, _) = b.popped_i32();
    if let Ok(slot) = slot {
        if (slot as u32) < c.table.len() {
            assert(c.table[(slot as u32) as int] != Some(a.image.charge));
            if let Some(target) = c.table[(slot as u32) as int] {
                assert(a.image.types.deep_view().len() == a.image.types@.len());
                assert(b.image.types.deep_view().len() == b.image.types@.len());
                if index < a.image.types@.len() {
                    lemma_same_type(a.image, b.image, index as int);
                }
                lemma_same_signature(a.image, b.image, target);
                lemma_called(w, c, d, target);
            }
        }
    }
}

proof fn lemma_block(
    w: Seq<Weave>,
    a: MachineView,
    b: MachineView,
    p: int,
    i: u32,
    ty: BlockType,
    is_loop: bool,
)
    requires
        twins(w, a, false, b),
        a.frames.len() > 0,
        a.image.defined(a.top().function) == Some(p),
        i < w[p].len(),
        w[p].after[i as int] is None,
    ensures
        alike(
            w,
            a.block(a.image.functions@[p], i, ty, is_loop), false,
            b.block(b.image.functions@[p], w[p].moved(i as int) as u32, ty, is_loop),
        ),
{
    reveal(MachineView::block);
    lemma_same_arity(a.image, b.image, ty);
    reveal(woven);
    let (f, g) = (a.image.functions@[p], b.image.functions@[p]);
    assert(woven(a.image.charge, w[p], f, g));
    assert(stands_for(a.image.charge, w[p], f, g, i as int));
    lemma_begin(w[p], 0, w[p].len() as int);
    lemma_begin(w[p], i as int, w[p].len() as int);
    assert(weave_of(w, a.image, a.top()) == w[p]);
    let n = a.frames.len() - 1;
    assert(frame_twin(w, a.image, a.frames[n], b.frames[n], false));
    if let (_, Ok(_)) = a.block(f, i, ty, is_loop) {
        let end = f.control@[i as int]->0.end;
        lemma_begin(w[p], end as int, w[p].len() as int);
        let (c, d) = (
            a.block(f, i, ty, is_loop).0.top(),
            b.block(g, w[p].moved(i as int) as u32, ty, is_loop).0.top(),
        );
        lemma_labelled(w, a, b, c.labels.last(), d.labels.last());
    }
}

proof fn lemma_labelled(
    w: Seq<Weave>,
    a: MachineView,
    b: MachineView,
    l: LabelWitness,
    k: LabelWitness,
)
    requires
        twins(w, a, false, b),
        a.frames.len() > 0,
        label_moved(weave_of(w, a.image, a.top()), l, k),
    ensures
        twins(w, a.labelled(l), false, b.labelled(k)),
{
    let n = a.frames.len() - 1;
    let (f, g) = (a.top(), b.top());
    assert(frame_twin(w, a.image, a.frames[n], b.frames[n], false));
    let c = FrameView { labels: f.labels.push(l), ..f };
    let d = FrameView { labels: g.labels.push(k), ..g };
    assert forall|i: int| 0 <= i < c.labels.len() implies label_moved(
        weave_of(w, a.image, f),
        #[trigger] c.labels[i],
        d.labels[i],
    ) by {
        if i < f.labels.len() {
            assert(c.labels[i] == f.labels[i] && d.labels[i] == g.labels[i]);
        }
    }
    lemma_top(w, a, b, c, d);
}

pub proof fn lemma_jumped_to(
    w: Seq<Weave>,
    a: MachineView,
    was: bool,
    b: MachineView,
    p: u32,
    paid: bool,
    q: u32,
)
    requires
        twins(w, a, was, b),
        a.frames.len() > 0,
        counter_moved(weave_of(w, a.image, a.top()), p, q, paid),
    ensures
        twins(w, a.jumped(p), paid, b.jumped(q)),
{
    let n = a.frames.len() - 1;
    assert(frame_twin(w, a.image, a.frames[n], b.frames[n], was));
    lemma_new_top(
        w,
        a,
        was,
        b,
        FrameView { pc: p, ..a.top() },
        paid,
        FrameView { pc: q, ..b.top() },
    );
}

proof fn lemma_jumped(w: Seq<Weave>, a: MachineView, b: MachineView, p: u32, q: u32)
    requires
        twins(w, a, false, b),
        a.frames.len() > 0,
        counter_moved(weave_of(w, a.image, a.top()), p, q, false),
    ensures
        twins(w, a.jumped(p), false, b.jumped(q)),
{
    lemma_jumped_to(w, a, false, b, p, false, q);
}

proof fn lemma_branch_if(
    w: Seq<Weave>,
    a: MachineView,
    b: MachineView,
    p: int,
    i: u32,
    ty: BlockType,
)
    requires
        twins(w, a, false, b),
        a.frames.len() > 0,
        a.image.defined(a.top().function) == Some(p),
        i < w[p].len(),
        w[p].after[i as int] is None,
    ensures
        alike(
            w,
            a.branch_if(a.image.functions@[p], i, ty), false,
            b.branch_if(b.image.functions@[p], w[p].moved(i as int) as u32, ty),
        ),
{
    reveal(MachineView::branch_if);
    lemma_same_arity(a.image, b.image, ty);
    reveal(woven);
    let (f, g) = (a.image.functions@[p], b.image.functions@[p]);
    assert(woven(a.image.charge, w[p], f, g));
    assert(stands_for(a.image.charge, w[p], f, g, i as int));
    lemma_begin(w[p], 0, w[p].len() as int);
    lemma_begin(w[p], i as int, w[p].len() as int);
    assert(weave_of(w, a.image, a.top()) == w[p]);
    let at = w[p].moved(i as int) as u32;
    if let Some(c) = f.control@[i as int] {
        let d = g.control@[at as int]->0;
        lemma_begin(w[p], c.end as int, w[p].len() as int);
        if let Some(x) = c.otherwise {
            lemma_begin(w[p], x as int, w[p].len() as int);
        }
        if let Some((params, results)) = block_arity(a.image, ty) {
            let (m, v) = a.popped_i32();
            let (n, _) = b.popped_i32();
            assert(twins(w, m, false, n));
            assert(m.frames == a.frames);
            if let Ok(v) = v {
                let l = m.label_for(false, i, c.end, params, results);
                let k = n.label_for(false, at, d.end, params, results);
                lemma_labelled(w, m, n, l, k);
                if v == 0 {
                    match c.otherwise {
                        Some(x) => {
                            let y = d.otherwise->0;
                            lemma_jumped(
                                w,
                                m.labelled(l),
                                n.labelled(k),
                                next_index(x),
                                next_index(y),
                            );
                        },
                        None => {
                            lemma_jumped(
                                w,
                                m,
                                n,
                                next_index(c.end),
                                next_index(d.end),
                            );
                        },
                    }
                }
            }
        }
    }
}

proof fn lemma_branching(
    w: Seq<Weave>,
    a: MachineView,
    b: MachineView,
    op: Operator,
    other: Operator,
)
    requires
        twins(w, a, false, b),
        a.frames.len() > 0,
        same_operator(op, other),
    ensures
        alike(w, a.branching(op), op is Else, b.branching(other)),
{
    reveal(MachineView::branching);
    lemma_left(w, a, b);
    let (m, v) = a.popped_i32();
    let (n, _) = b.popped_i32();
    assert(twins(w, m, false, n));
    let k = a.frames.len() - 1;
    assert(frame_twin(w, a.image, a.frames[k], b.frames[k], false));
    let (f, g) = (a.top(), b.top());
    let x = weave_of(w, a.image, f);
    match op {
        Operator::Br { relative_depth } => {
            lemma_branched(w, a, b, relative_depth);
        },
        Operator::BrIf { relative_depth } => {
            lemma_branched(w, m, n, relative_depth);
        },
        Operator::BrTable { targets, default } => {
            if let Ok(index) = v {
                lemma_branched(
                    w,
                    m,
                    n,
                    if (index as u32) < targets@.len() {
                        targets@[(index as u32) as int]
                    } else {
                        default
                    },
                );
            }
        },
        Operator::Else => {
            if f.labels.len() > 0 {
                let z = f.labels.len() - 1;
                assert(label_moved(x, f.labels[z], g.labels[z]));
                lemma_jumped_to(
                    w,
                    a,
                    false,
                    b,
                    f.labels.last().end,
                    true,
                    g.labels.last().end,
                );
            }
        },
        Operator::End => {
            if f.labels.len() > 0 {
                let c = FrameView { labels: f.labels.drop_last(), ..f };
                let d = FrameView { labels: g.labels.drop_last(), ..g };
                assert forall|i: int| 0 <= i < c.labels.len() implies label_moved(
                    x,
                    #[trigger] c.labels[i],
                    d.labels[i],
                ) by {
                    assert(c.labels[i] == f.labels[i] && d.labels[i] == g.labels[i]);
                }
                lemma_top(w, a, b, c, d);
            }
        },
        _ => {},
    }
}

proof fn lemma_executed(
    w: Seq<Weave>,
    a: MachineView,
    b: MachineView,
    p: int,
    i: u32,
    op: Operator,
    other: Operator,
)
    requires
        twins(w, a, false, b),
        a.frames.len() > 0,
        a.image.defined(a.top().function) == Some(p),
        i < w[p].len(),
        w[p].after[i as int] is None,
        same_operator(op, other),
        op != (Operator::Call { function_index: a.image.charge }),
        names_locals(op, w[p].locals),
    ensures
        alike(
            w,
            a.executed(op, a.image.functions@[p], i),
            op is Else,
            b.executed(other, b.image.functions@[p], w[p].moved(i as int) as u32),
        ),
{
    reveal(MachineView::executed);
    match op {
        Operator::Block { blockty } => {
            lemma_block(w, a, b, p, i, blockty, false);
        },
        Operator::Loop { blockty } => {
            lemma_block(w, a, b, p, i, blockty, true);
        },
        Operator::If { blockty } => {
            lemma_branch_if(w, a, b, p, i, blockty);
        },
        Operator::Else
        | Operator::End
        | Operator::Br { .. }
        | Operator::BrIf { .. }
        | Operator::BrTable { .. }
        | Operator::Return => {
            lemma_branching(w, a, b, op, other);
        },
        Operator::Call { function_index } => {
            lemma_called(w, a, b, function_index);
        },
        Operator::CallIndirect { type_index } => {
            lemma_called_indirect(w, a, b, type_index);
        },
        Operator::Select | Operator::TypedSelect { .. } => {
            lemma_selected(a, b);
            lemma_aside(w, a, b, a.selected(), b.selected());
        },
        Operator::LocalGet { .. }
        | Operator::LocalSet { .. }
        | Operator::LocalTee { .. }
        | Operator::GlobalGet { .. }
        | Operator::GlobalSet { .. } => {
            lemma_variable(w, a, b, op);
        },
        Operator::MemorySize
        | Operator::MemoryGrow
        | Operator::MemoryFill
        | Operator::MemoryCopy
        | Operator::MemoryInit { .. }
        | Operator::DataDrop { .. }
        | Operator::ElemDrop { .. } => {
            lemma_bulk(a, b, op);
            lemma_aside(w, a, b, a.bulk(op), b.bulk(op));
        },
        _ => {
            if let Some((offset, width)) = load_shape(op) {
                lemma_load(a, b, op, offset, width);
                lemma_aside(w, a, b, a.load(op, offset, width), b.load(op, offset, width));
            } else if let Some((offset, kind, width)) = store_shape(op) {
                lemma_store(a, b, offset, kind, width);
                lemma_aside(
                    w,
                    a,
                    b,
                    a.store(offset, kind, width),
                    b.store(offset, kind, width),
                );
            }
        },
    }
}


/// Is a state another one, at another instruction of the same frame, with another stack, locals
/// and labels?
pub open spec fn stands(
    c: MachineView,
    b: MachineView,
    pc: int,
    stack: Seq<Value>,
    locals: Seq<Value>,
    labels: Seq<LabelWitness>,
) -> bool {
    c == (MachineView {
        stack,
        steps: c.steps,
        frames: b.frames.drop_last().push(
            FrameView { pc: pc as u32, locals, labels, ..b.top() },
        ),
        ..b
    })
}

/// Is a machine about to execute an instruction of a function?
pub open spec fn is_running(b: MachineView, g: Function, pc: int) -> bool {
    &&& !b.finished
    &&& b.frames.len() > 0
    &&& b.image.defined(b.top().function) is Some
    &&& g == b.image.functions@[b.image.defined(b.top().function)->0]
    &&& 0 <= pc < g.ops@.len() < u32::MAX
}

proof fn lemma_numeric(
    c: MachineView,
    b: MachineView,
    g: Function,
    pc: int,
    stack: Seq<Value>,
    locals: Seq<Value>,
    labels: Seq<LabelWitness>,
)
    requires
        stands(c, b, pc, stack, locals, labels),
        is_running(b, g, pc),
        applied(g.ops@[pc], stack).1 != Ok::<_, TrapView>(false),
    ensures
        match applied(g.ops@[pc], stack) {
            (after, Ok(_)) => c.stepped().1 == Ok::<_, TrapView>(Progress::Continued) && stands(
                c.stepped().0,
                b,
                pc + 1,
                after,
                locals,
                labels,
            ),
            (_, Err(t)) => c.stepped().1 == Err::<Progress, TrapView>(t),
        },
{
    assert(c.frames.drop_last() =~= b.frames.drop_last());
}

proof fn lemma_get(
    c: MachineView,
    b: MachineView,
    g: Function,
    pc: int,
    stack: Seq<Value>,
    locals: Seq<Value>,
    labels: Seq<LabelWitness>,
    local: u32,
)
    requires
        stands(c, b, pc, stack, locals, labels),
        is_running(b, g, pc),
        g.ops@[pc] == (Operator::LocalGet { local_index: local }),
        local < locals.len(),
    ensures
        c.stepped().1 == Ok::<_, TrapView>(Progress::Continued),
        stands(c.stepped().0, b, pc + 1, stack.push(locals[local as int]), locals, labels),
{
    reveal(MachineView::executed);
    reveal(MachineView::variable);
    assert(shape(g.ops@[pc]) is NotNumeric);
    assert(c.frames.drop_last() =~= b.frames.drop_last());
}

proof fn lemma_tee(
    c: MachineView,
    b: MachineView,
    g: Function,
    pc: int,
    stack: Seq<Value>,
    locals: Seq<Value>,
    labels: Seq<LabelWitness>,
    local: u32,
)
    requires
        stands(c, b, pc, stack, locals, labels),
        is_running(b, g, pc),
        g.ops@[pc] == (Operator::LocalTee { local_index: local }),
        local < locals.len(),
    ensures
        stack.len() == 0 ==> c.stepped().1 == Err::<Progress, TrapView>(TrapView::StackUnderflow),
        stack.len() > 0 ==> c.stepped().1 == Ok::<_, TrapView>(Progress::Continued) && stands(
            c.stepped().0,
            b,
            pc + 1,
            stack,
            locals.update(local as int, stack.last()),
            labels,
        ),
{
    reveal(MachineView::executed);
    reveal(MachineView::variable);
    assert(shape(g.ops@[pc]) is NotNumeric);
    assert(c.frames.drop_last() =~= b.frames.drop_last());
    let d = c.advanced();
    assert(d.frames.drop_last() =~= b.frames.drop_last());
}

/// The label of the construct that picks the value.
spec fn picking(stack: Seq<Value>, end: int) -> LabelWitness {
    LabelWitness {
        branch_target: next_index(end as u32),
        arity: 1,
        stack_height: less_or_zero(stack.len() as u32, 0),
        end: end as u32,
        is_loop: false,
    }
}

proof fn lemma_pick(
    c: MachineView,
    b: MachineView,
    g: Function,
    pc: int,
    stack: Seq<Value>,
    n: i32,
    locals: Seq<Value>,
    labels: Seq<LabelWitness>,
)
    requires
        stands(c, b, pc, stack.push(Value::I32(n)), locals, labels),
        is_running(b, g, pc),
        g.ops@[pc] == (Operator::If { blockty: BlockType::Value }),
        g.control@.len() == g.ops@.len(),
        pc + 4 < g.ops@.len(),
        g.control@[pc] == Some(
            Control { end: (pc + 4) as u32, otherwise: Some((pc + 2) as u32) },
        ),
    ensures
        c.stepped().1 == Ok::<_, TrapView>(Progress::Continued),
        stands(
            c.stepped().0,
            b,
            if n != 0 {
                pc + 1
            } else {
                pc + 3
            },
            stack,
            locals,
            labels.push(picking(stack, pc + 4)),
        ),
{
    reveal(MachineView::executed);
    reveal(MachineView::branch_if);
    assert(shape(g.ops@[pc]) is NotNumeric);
    assert(stack.push(Value::I32(n)).drop_last() =~= stack);
    assert(c.frames.drop_last() =~= b.frames.drop_last());
    let d = c.advanced();
    assert(d.frames.drop_last() =~= b.frames.drop_last());
    let e = d.with_stack(stack).labelled(picking(stack, pc + 4));
    assert(e.frames.drop_last() =~= b.frames.drop_last());
}

proof fn lemma_picked(
    c: MachineView,
    b: MachineView,
    g: Function,
    pc: int,
    stack: Seq<Value>,
    locals: Seq<Value>,
    labels: Seq<LabelWitness>,
    label: LabelWitness,
)
    requires
        stands(c, b, pc, stack, locals, labels.push(label)),
        is_running(b, g, pc),
    ensures
        g.ops@[pc] == Operator::End ==> c.stepped().1 == Ok::<_, TrapView>(Progress::Continued)
            && stands(c.stepped().0, b, pc + 1, stack, locals, labels),
        g.ops@[pc] == Operator::Else ==> c.stepped().1 == Ok::<_, TrapView>(Progress::Continued)
            && stands(c.stepped().0, b, label.end as int, stack, locals, labels.push(label)),
{
    reveal(MachineView::executed);
    reveal(MachineView::branching);
    assert(c.frames.drop_last() =~= b.frames.drop_last());
    let d = c.advanced();
    assert(d.frames.drop_last() =~= b.frames.drop_last());
    assert(labels.push(label).drop_last() =~= labels);
    assert(labels.push(label).last() == label);
    if g.ops@[pc] == Operator::End || g.ops@[pc] == Operator::Else {
        assert(shape(g.ops@[pc]) is NotNumeric);
    }
}

/// Does a machine stop with a trap after some number of instructions?
pub open spec fn stops(m: MachineView, instructions: nat, t: TrapView) -> bool {
    match m.after(instructions) {
        Some(c) => !c.finished && c.stepped().1 == Err::<Progress, TrapView>(t),
        None => false,
    }
}

/// The kind of value of a width.
pub open spec fn kind_of_width(width: FloatWidth) -> Kind {
    match width {
        FloatWidth::F32 => Kind::F32,
        FloatWidth::F64 => Kind::F64,
    }
}

/// Where the instructions that fix a value lead.
pub open spec fn fix_leads(
    b: MachineView,
    width: FloatWidth,
    scratch: u32,
    at: int,
    k: nat,
) -> bool {
    match popped(b.stack, kind_of_width(width)) {
        (_, Err(t)) => stops(b, k, t),
        (rest, Ok(v)) => k > 0 && (match b.after(k) {
            Some(c) => stands(
                c,
                b,
                at + 8,
                rest.push(fixed(width, v)),
                b.top().locals.update(scratch as int, v),
                b.top().labels,
            ),
            None => false,
        }),
    }
}

/// The instruction that a machine executes next, if there is one.
pub open spec fn next_operator(m: MachineView) -> Option<Operator> {
    if m.finished || m.frames.len() == 0 {
        None
    } else {
        match m.image.defined(m.top().function) {
            None => None,
            Some(p) => if m.top().pc < m.image.functions@[p].ops@.len() {
                Some(m.image.functions@[p].ops@[m.top().pc as int])
            } else {
                None
            },
        }
    }
}

/// Does an instruction that may make a NaN come next?
pub open spec fn mints(m: MachineView) -> bool {
    match next_operator(m) {
        Some(op) => minted(op) is Some,
        None => false,
    }
}

/// Are so many instructions executed without one that may make a NaN?
pub open spec fn is_quiet(m: MachineView, instructions: nat) -> bool
    decreases instructions,
{
    instructions == 0 || (is_quiet(m, (instructions - 1) as nat) && match m.after(
        (instructions - 1) as nat,
    ) {
        Some(c) => !mints(c),
        None => false,
    })
}

pub proof fn lemma_quiet_on(m: MachineView, k: nat, j: nat)
    requires
        is_quiet(m, k),
        m.after(k) is Some,
        is_quiet(m.after(k)->0, j),
    ensures
        is_quiet(m, k + j),
    decreases j,
{
    if j > 0 {
        lemma_quiet_on(m, k, (j - 1) as nat);
        lemma_on(m, k, (j - 1) as nat);
        assert((k + j) - 1 == k + (j - 1));
    }
}

proof fn lemma_quiet_more(
    m: MachineView,
    k: nat,
    b: MachineView,
    g: Function,
    pc: int,
    stack: Seq<Value>,
    locals: Seq<Value>,
    labels: Seq<LabelWitness>,
)
    requires
        is_quiet(m, k),
        m.after(k) is Some,
        stands(m.after(k)->0, b, pc, stack, locals, labels),
        is_running(b, g, pc),
        minted(g.ops@[pc]) is None,
    ensures
        is_quiet(m, k + 1),
{
    let c = m.after(k)->0;
    assert(next_operator(c) == Some(g.ops@[pc]));
}

pub proof fn lemma_one_more(m: MachineView, k: nat)
    requires
        m.after(k) is Some,
        !m.after(k)->0.finished,
        m.after(k)->0.stepped().1 is Ok,
    ensures
        m.after(k + 1) == Some(m.after(k)->0.stepped().0),
{
}

/// The sequence that fixes a value does: it leaves the value, or the canonical NaN for any NaN,
/// and its scratch local aside nothing else is changed.
pub proof fn lemma_fix(b: MachineView, g: Function, width: FloatWidth, scratch: u32, at: int) -> (k:
    nat)
    requires
        is_running(b, g, at),
        b.top().pc == at,
        fixes_at(g, width, scratch, at),
        scratch < b.top().locals.len(),
    ensures
        fix_leads(b, width, scratch, at, k),
        is_quiet(b, k),
{
    let (f, stack) = (b.top(), b.stack);
    let labels = f.labels;
    assert(b.frames.drop_last().push(FrameView { pc: at as u32, ..f }) =~= b.frames);
    assert(stands(b, b, at, stack, f.locals, labels));
    lemma_tee(b, b, g, at, stack, f.locals, labels, scratch);
    if stack.len() == 0 {
        0
    } else {
        let v = stack.last();
        let kept = f.locals.update(scratch as int, v);
        lemma_one_more(b, 0);
        lemma_quiet_more(b, 0, b, g, at, stack, f.locals, labels);
        let one = b.after(1)->0;
        lemma_get(one, b, g, at + 1, stack, kept, labels, scratch);
        lemma_one_more(b, 1);
        lemma_quiet_more(b, 1, b, g, at + 1, stack, kept, labels);
        let two = b.after(2)->0;
        let both = stack.push(v);
        let rest = stack.drop_last();
        assert(both.drop_last() =~= stack);
        let ne = unequal(width);
        if kind_of(v) != kind_of_width(width) {
            assert(applied(ne, both).1 == Err::<bool, TrapView>(TrapView::TypeMismatch));
            lemma_numeric(two, b, g, at + 2, both, kept, labels);
            2
        } else {
            let told = lemma_told(width, v);
            assert(applied(ne, both) == (rest.push(Value::I32(told)), Ok::<bool, TrapView>(true)));
            lemma_numeric(two, b, g, at + 2, both, kept, labels);
            lemma_one_more(b, 2);
            lemma_quiet_more(b, 2, b, g, at + 2, both, kept, labels);
            let three = b.after(3)->0;
            lemma_pick(three, b, g, at + 3, rest, told, kept, labels);
            lemma_one_more(b, 3);
            lemma_quiet_more(b, 3, b, g, at + 3, rest.push(Value::I32(told)), kept, labels);
            let four = b.after(4)->0;
            let label = picking(rest, at + 7);
            let inner = labels.push(label);
            if told != 0 {
                assert(applied(canonical(width), rest) == (
                    rest.push(fixed(width, v)),
                    Ok::<bool, TrapView>(true),
                ));
                lemma_numeric(four, b, g, at + 4, rest, kept, inner);
                lemma_one_more(b, 4);
                lemma_quiet_more(b, 4, b, g, at + 4, rest, kept, inner);
                let five = b.after(5)->0;
                lemma_picked(five, b, g, at + 5, rest.push(fixed(width, v)), kept, labels, label);
                lemma_one_more(b, 5);
                lemma_quiet_more(b, 5, b, g, at + 5, rest.push(fixed(width, v)), kept, inner);
                let six = b.after(6)->0;
                lemma_picked(six, b, g, at + 7, rest.push(fixed(width, v)), kept, labels, label);
                lemma_one_more(b, 6);
                lemma_quiet_more(b, 6, b, g, at + 7, rest.push(fixed(width, v)), kept, inner);
                7
            } else {
                lemma_get(four, b, g, at + 6, rest, kept, inner, scratch);
                lemma_one_more(b, 4);
                lemma_quiet_more(b, 4, b, g, at + 6, rest, kept, inner);
                let five = b.after(5)->0;
                lemma_picked(five, b, g, at + 7, rest.push(v), kept, labels, label);
                lemma_one_more(b, 5);
                lemma_quiet_more(b, 5, b, g, at + 7, rest.push(v), kept, inner);
                6
            }
        }
    }
}

/// What the comparison of a value with itself tells.
proof fn lemma_told(width: FloatWidth, v: Value) -> (n: i32)
    requires
        kind_of(v) == kind_of_width(width),
    ensures
        binary(unequal(width), v, v) == Ok::<_, TrapView>(Value::I32(n)),
        n != 0 ==> fixed(width, v) == (match width {
            FloatWidth::F32 => Value::F32(CANONICAL_NAN_F32),
            FloatWidth::F64 => Value::F64(CANONICAL_NAN_F64),
        }),
        n == 0 ==> fixed(width, v) == v,
{
    match binary(unequal(width), v, v) {
        Ok(Value::I32(n)) => n,
        _ => 0,
    }
}

/// What is woven around the next instruction of a machine, and which one that is.
pub open spec fn next_of(w: Seq<Weave>, m: MachineView) -> Option<(Weave, int)> {
    if m.finished || m.frames.len() == 0 {
        None
    } else {
        match m.image.defined(m.top().function) {
            None => None,
            Some(p) => if m.top().pc < w[p].len() {
                Some((w[p], m.top().pc as int))
            } else {
                None
            },
        }
    }
}

/// The meter once an instruction is paid for, if there is fuel for it.
pub open spec fn paid_for(w: Weave, i: int, paid: bool, meter: MeterState) -> Option<MeterState> {
    let amount = ((w.amounts[i] as i32) as u32) as nat;
    if paid || w.amounts[i] == 0 {
        Some(meter)
    } else if meter.affords(amount) {
        Some(meter.after(amount))
    } else {
        None
    }
}

/// The stack once an operand is fixed, if one has to be and is there.
pub open spec fn operand_fixed(width: Option<FloatWidth>, stack: Seq<Value>) -> Result<
    Seq<Value>,
    TrapView,
> {
    match width {
        None => Ok(stack),
        Some(width) => match popped(stack, kind_of_width(width)) {
            (_, Err(t)) => Err(t),
            (rest, Ok(v)) => Ok(rest.push(fixed(width, v))),
        },
    }
}

/// What a plain module does when each instruction is paid for first and its operand is fixed:
/// one instruction of it, which may have been paid for already.
pub open spec fn guarded(w: Seq<Weave>, m: MachineView, paid: bool) -> Outcome {
    match next_of(w, m) {
        None => m.stepped(),
        Some((weave, i)) => match paid_for(weave, i, paid, m.meter) {
            None => (m, Err(TrapView::OutOfFuel)),
            Some(meter) => match operand_fixed(weave.before[i], m.stack) {
                Err(t) => (m, Err(t)),
                Ok(stack) => (MachineView { meter, stack, ..m }).stepped(),
            },
        },
    }
}

/// Is the next instruction an `else`? It leads to an `end` past what pays for that.
pub open spec fn passes_over(w: Seq<Weave>, m: MachineView) -> bool {
    match next_of(w, m) {
        None => false,
        Some((_, i)) => m.image.functions@[m.image.defined(m.top().function)->0].ops@[i] is Else,
    }
}

/// Does a machine, in so many instructions, get where another one gets with one?
pub open spec fn leads(w: Seq<Weave>, o: Outcome, paid: bool, b: MachineView, k: nat) -> bool {
    match o {
        (_, Err(t)) => stops(b, k, t),
        (a, Ok(_)) => k > 0 && (match b.after(k) {
            Some(c) => twins(w, a, paid, c),
            None => false,
        }),
    }
}

pub proof fn lemma_on(m: MachineView, k: nat, j: nat)
    requires
        m.after(k) is Some,
    ensures
        m.after(k + j) == m.after(k)->0.after(j),
    decreases j,
{
    if j > 0 {
        lemma_on(m, k, (j - 1) as nat);
        assert((k + j) - 1 == k + (j - 1));
    }
}

pub proof fn lemma_same_applied(op: Operator, other: Operator, stack: Seq<Value>)
    requires
        same_operator(op, other),
    ensures
        applied(op, stack) == applied(other, stack),
        minted(op) is Some ==> op == other,
        minted(op) == minted(other),
{
    if op != other {
        assert(shape(op) is NotNumeric && shape(other) is NotNumeric);
    }
}

/// An instruction that may make a NaN leaves a value of its width, which needs no fixing.
pub proof fn lemma_minted(op: Operator, width: FloatWidth, stack: Seq<Value>)
    requires
        minted(op) == Some(width),
    ensures
        applied(op, stack).1 != Ok::<_, TrapView>(false),
        applied(op, stack).1 is Ok ==> applied(op, stack).0.len() > 0 && kind_of(
            applied(op, stack).0.last(),
        ) == kind_of_width(width) && fixed(width, applied(op, stack).0.last()) == applied(
            op,
            stack,
        ).0.last(),
{
    assert(!(shape(op) is NotNumeric));
    if applied(op, stack).1 is Ok {
        law_interpreted_nans_are_canonical(op, stack);
        lemma_minted_kind(op, width, stack);
        law_fixing_changes_only_nans(width, applied(op, stack).0.last());
    }
}

proof fn lemma_minted_kind(op: Operator, width: FloatWidth, stack: Seq<Value>)
    requires
        minted(op) == Some(width),
        applied(op, stack).1 is Ok,
    ensures
        applied(op, stack).0.len() > 0,
        kind_of(applied(op, stack).0.last()) == kind_of_width(width),
{
}

/// Is a machine at an instruction itself, paid for and its operand fixed?
pub open spec fn is_ready(w: Seq<Weave>, a: MachineView, b: MachineView) -> bool {
    match next_of(w, a) {
        None => false,
        Some((weave, i)) => b.frames.len() > 0 && b.top().pc == weave.moved(i) && twins(
            w,
            a,
            true,
            b.jumped(weave.paid(i) as u32),
        ),
    }
}

pub proof fn lemma_rejumped(b: MachineView, p: u32, q: u32)
    requires
        b.frames.len() > 0,
    ensures
        b.jumped(p).jumped(q) == b.jumped(q),
{
    assert(b.jumped(p).frames.drop_last() =~= b.frames.drop_last());
}

pub proof fn lemma_ready(w: Seq<Weave>, a: MachineView, b: MachineView) -> (k: nat)
    requires
        is_ready(w, a, b),
    ensures
        leads(w, a.stepped(), passes_over(w, a), b, k),
        next_of(w, a) matches Some((weave, i)) ==> weave.after[i] is None ==> k == (
        if a.stepped().1 is Ok {
            1nat
        } else {
            0
        }),
{
    let p = a.image.defined(a.top().function)->0;
    let (f, g) = (a.image.functions@[p], b.image.functions@[p]);
    let i = a.top().pc;
    let wp = w[p];
    let (q, at) = (wp.paid(i as int) as u32, wp.moved(i as int));
    let b0 = b.jumped(q);
    let n = a.frames.len() - 1;
    assert(frame_twin(w, a.image, a.frames[n], b0.frames[n], true));
    assert(b0.frames[n] == (FrameView { pc: q, ..b.top() }));
    assert(woven(a.image.charge, wp, f, g));
    assert(wp.len() == f.ops@.len() && g.ops@.len() == wp.begin(wp.len() as int) && g.ops@.len()
        < u32::MAX && g.control@.len() == g.ops@.len()) by {
        reveal(woven);
    }
    assert(stands_for(a.image.charge, wp, f, g, i as int)) by {
        reveal(woven);
    }
    lemma_begin(wp, 0, wp.len() as int);
    lemma_begin(wp, i as int, wp.len() as int);
    let (op, other) = (f.ops@[i as int], g.ops@[at]);
    lemma_same_applied(op, other, a.stack);
    let (stack, handled) = applied(op, a.stack);
    let next = wp.begin(i + 1) as u32;
    lemma_jumped_to(w, a, true, b0, next_index(i), false, next);
    lemma_rejumped(b, q, next);
    let c = a.advanced();
    let d = b.advanced();
    if let Err(t) = handled {
        0
    } else {
        match wp.after[i as int] {
            None => {
                assert(next == at + 1);
                assert(twins(w, c, false, d)) by {
                    assert(c.frames == a.jumped(next_index(i)).frames);
                    assert(d.frames == b.jumped(next).frames);
                }
                let (x, y) = (c.with_stack(stack), d.with_stack(stack));
                assert(twins(w, x, false, y));
                assert(x.top().function == a.top().function);
                lemma_executed(w, x, y, p, i, op, other);
                if handled == Ok::<bool, TrapView>(true) {
                    assert(!(op is Else));
                }
                match a.stepped() {
                    (_, Err(_)) => 0,
                    (_, Ok(_)) => {
                        lemma_one_more(b, 0);
                        1
                    },
                }
            },
            Some(width) => {
                lemma_minted(op, width, a.stack);
                let y = d.with_stack(stack);
                lemma_one_more(b, 0);
                assert(b.after(1) == Some(y));
                let scratch = wp.scratch(width);
                let j = lemma_fix(y, g, width, scratch, at + 1);
                lemma_on(b, 1, j);
                let e = y.after(j)->0;
                let v = stack.last();
                assert(stack.drop_last().push(v) =~= stack);
                let x = c.with_stack(stack);
                let top = FrameView {
                    pc: next,
                    locals: b.top().locals.update(scratch as int, v),
                    ..b.top()
                };
                assert(top.locals.take(wp.locals as int) =~= b.top().locals.take(
                    wp.locals as int,
                ));
                let b1 = b.jumped(next);
                assert(twins(w, x, false, b1.with_stack(stack)));
                lemma_new_top(
                    w,
                    x,
                    false,
                    b1.with_stack(stack),
                    FrameView { pc: next_index(i), ..a.top() },
                    false,
                    top,
                );
                assert(x.frames.drop_last().push(FrameView { pc: next_index(i), ..a.top() })
                    =~= x.frames);
                assert(e.frames =~= b1.frames.drop_last().push(top));
                assert(twins(w, x, false, e));
                1 + j
            },
        }
    }
}

pub proof fn lemma_charge(w: Seq<Weave>, a: MachineView, b: MachineView) -> (k: nat)
    requires
        twins(w, a, false, b),
        next_of(w, a) is Some,
    ensures
        match next_of(w, a) {
            None => true,
            Some((weave, i)) => match paid_for(weave, i, false, a.meter) {
                None => stops(b, k, TrapView::OutOfFuel),
                Some(meter) => match b.after(k) {
                    Some(c) => twins(w, (MachineView { meter, ..a }), true, c),
                    None => false,
                },
            },
        },
        is_quiet(b, k),
{
    let p = a.image.defined(a.top().function)->0;
    let (f, g) = (a.image.functions@[p], b.image.functions@[p]);
    let i = a.top().pc;
    let wp = w[p];
    let n = a.frames.len() - 1;
    assert(frame_twin(w, a.image, a.frames[n], b.frames[n], false));
    assert(woven(a.image.charge, wp, f, g));
    assert(wp.len() == f.ops@.len() && g.ops@.len() == wp.begin(wp.len() as int) && g.ops@.len()
        < u32::MAX) by {
        reveal(woven);
    }
    assert(stands_for(a.image.charge, wp, f, g, i as int)) by {
        reveal(woven);
    }
    lemma_begin(wp, i as int, wp.len() as int);
    if wp.amounts[i as int] == 0 {
        lemma_jumped_to(w, a, false, b, i, true, b.top().pc);
        assert(a.jumped(i).frames =~= a.frames);
        assert(b.jumped(b.top().pc).frames =~= b.frames);
        0
    } else {
        let j = b.top().pc as int;
        let top = b.top();
        let amount = wp.amounts[i as int] as i32;
        assert(b.frames.drop_last().push(FrameView { pc: j as u32, ..top }) =~= b.frames);
        assert(stands(b, b, j, b.stack, top.locals, top.labels));
        assert(applied(g.ops@[j], b.stack) == (
            b.stack.push(Value::I32(amount)),
            Ok::<bool, TrapView>(true),
        ));
        lemma_numeric(b, b, g, j, b.stack, top.locals, top.labels);
        lemma_one_more(b, 0);
        lemma_quiet_more(b, 0, b, g, j, b.stack, top.locals, top.labels);
        let one = b.after(1)->0;
        let ready = one.advanced();
        assert(shape(g.ops@[j + 1]) is NotNumeric);
        assert(one.stepped() == ready.charged()) by {
            reveal(MachineView::executed);
            reveal(MachineView::called);
        }
        reveal(MachineView::charged);
        assert(ready.stack.drop_last() =~= b.stack);
        assert(one.frames.drop_last() =~= b.frames.drop_last());
        if let Some(meter) = paid_for(wp, i as int, false, a.meter) {
            lemma_one_more(b, 1);
            lemma_quiet_more(
                b,
                1,
                b,
                g,
                j + 1,
                b.stack.push(Value::I32(amount)),
                top.locals,
                top.labels,
            );
            let two = b.after(2)->0;
            assert(two.frames == b.frames.drop_last().push(FrameView { pc: (j + 2) as u32, ..top }));
            let c = MachineView { meter, ..a };
            assert(twins(w, c, false, MachineView { meter, ..b }));
            lemma_jumped_to(w, c, false, MachineView { meter, ..b }, i, true, (j + 2) as u32);
            assert(c.jumped(i).frames =~= c.frames);
            assert(c.jumped(i) == c);
            2
        } else {
            1
        }
    }
}

pub proof fn lemma_operand(w: Seq<Weave>, a: MachineView, b: MachineView) -> (k: nat)
    requires
        twins(w, a, true, b),
        next_of(w, a) is Some,
    ensures
        match next_of(w, a) {
            None => true,
            Some((weave, i)) => match operand_fixed(weave.before[i], a.stack) {
                Err(t) => stops(b, k, t),
                Ok(stack) => match b.after(k) {
                    Some(c) => is_ready(w, a.with_stack(stack), c),
                    None => false,
                },
            },
        },
        is_quiet(b, k),
{
    let p = a.image.defined(a.top().function)->0;
    let (f, g) = (a.image.functions@[p], b.image.functions@[p]);
    let i = a.top().pc;
    let wp = w[p];
    let n = a.frames.len() - 1;
    assert(frame_twin(w, a.image, a.frames[n], b.frames[n], true));
    assert(woven(a.image.charge, wp, f, g));
    assert(wp.len() == f.ops@.len() && g.ops@.len() == wp.begin(wp.len() as int) && g.ops@.len()
        < u32::MAX) by {
        reveal(woven);
    }
    assert(stands_for(a.image.charge, wp, f, g, i as int)) by {
        reveal(woven);
    }
    lemma_begin(wp, i as int, wp.len() as int);
    let at = wp.paid(i as int);
    match wp.before[i as int] {
        None => {
            assert(b.jumped(at as u32).frames =~= b.frames);
            assert(b.jumped(at as u32) == b);
            assert(a.with_stack(a.stack) == a);
            0
        },
        Some(width) => {
            let scratch = wp.scratch(width);
            let k = lemma_fix(b, g, width, scratch, at);
            if let Ok(stack) = operand_fixed(wp.before[i as int], a.stack) {
                let c = b.after(k)->0;
                let v = popped(a.stack, kind_of_width(width)).1->Ok_0;
                let top = FrameView {
                    locals: b.top().locals.update(scratch as int, v),
                    ..b.top()
                };
                assert(top.locals.take(wp.locals as int) =~= b.top().locals.take(
                    wp.locals as int,
                ));
                let x = a.with_stack(stack);
                assert(twins(w, x, true, b.with_stack(stack)));
                lemma_new_top(w, x, true, b.with_stack(stack), a.top(), true, top);
                assert(x.with_top(a.top()).frames =~= x.frames);
                assert(x.with_top(a.top()) == x);
                assert(c.frames.drop_last() =~= b.frames.drop_last());
                let d = c.jumped(at as u32);
                assert(d.frames =~= b.with_stack(stack).with_top(top).frames);
                assert(twins(w, x, true, d));
            }
            k
        },
    }
}

/// One instruction that is paid for and whose operand is fixed, and what stands for it.
pub proof fn lemma_guarded(w: Seq<Weave>, a: MachineView, paid: bool, b: MachineView) -> (k: nat)
    requires
        twins(w, a, paid, b),
        !a.finished,
    ensures
        leads(w, guarded(w, a, paid), passes_over(w, a), b, k),
{
    match next_of(w, a) {
        None => {
            if a.frames.len() > 0 {
                let n = a.frames.len() - 1;
                assert(frame_twin(w, a.image, a.frames[n], b.frames[n], paid));
                let p = a.image.defined(a.top().function)->0;
                assert(woven(
                    a.image.charge,
                    w[p],
                    a.image.functions@[p],
                    b.image.functions@[p],
                ));
                reveal(woven);
            }
            0
        },
        Some((weave, i)) => {
            let k = if paid {
                0
            } else {
                lemma_charge(w, a, b)
            };
            match paid_for(weave, i, paid, a.meter) {
                None => k,
                Some(meter) => {
                    let c = MachineView { meter, ..a };
                    let d = b.after(k)->0;
                    assert(twins(w, c, true, d)) by {
                        if paid {
                            assert(c == a);
                        }
                    }
                    let j = lemma_operand(w, c, d);
                    lemma_on(b, k, j);
                    match operand_fixed(weave.before[i], a.stack) {
                        Err(_) => k + j,
                        Ok(stack) => {
                            let e = d.after(j)->0;
                            let x = c.with_stack(stack);
                            let h = lemma_ready(w, x, e);
                            lemma_on(b, k + j, h);
                            assert(x == (MachineView { meter, stack, ..a }));
                            k + j + h
                        },
                    }
                },
            }
        },
    }
}

/// What a program has computed.
pub struct Answer {
    /// The output.
    pub output: Seq<u8>,
    /// Its hash.
    pub output_digest: Digest,
    /// What the memory holds.
    pub memory: MemoryView,
    /// What the globals hold.
    pub globals: Seq<Value>,
    /// What is left on the stack.
    pub stack: Seq<Value>,
}

/// How a run ends.
pub enum Ending {
    /// With an answer.
    Answered(Answer),
    /// With a trap.
    Trapped(TrapView),
}

/// The answer of a machine that has finished.
pub open spec fn answer(m: MachineView) -> Answer {
    Answer {
        output: m.output,
        output_digest: m.output_digest,
        memory: m.memory,
        globals: m.globals,
        stack: m.stack,
    }
}

/// How a run ends with a machine in some state, given what its next instruction does.
pub open spec fn ending(m: MachineView, next: Outcome) -> Option<Ending> {
    if m.finished {
        Some(Ending::Answered(answer(m)))
    } else {
        match next.1 {
            Err(t) => Some(Ending::Trapped(t)),
            Ok(_) => None,
        }
    }
}

/// Does a run end so, after some number of instructions?
pub open spec fn ends(m: MachineView, instructions: nat, e: Ending) -> bool {
    match m.after(instructions) {
        Some(c) => ending(c, c.stepped()) == Some(e),
        None => false,
    }
}

/// What a plain module comes to when each instruction is paid for first and its operand is fixed,
/// after some number of instructions, unless it has ended before.
pub open spec fn guarded_after(
    w: Seq<Weave>,
    m: MachineView,
    paid: bool,
    instructions: nat,
) -> Option<(MachineView, bool)>
    decreases instructions,
{
    if instructions == 0 {
        Some((m, paid))
    } else if m.finished {
        None
    } else {
        match guarded(w, m, paid) {
            (next, Ok(_)) => guarded_after(
                w,
                next,
                passes_over(w, m),
                (instructions - 1) as nat,
            ),
            (_, Err(_)) => None,
        }
    }
}

/// Does such a run end so?
pub open spec fn guarded_ends(
    w: Seq<Weave>,
    m: MachineView,
    paid: bool,
    instructions: nat,
    e: Ending,
) -> bool {
    match guarded_after(w, m, paid, instructions) {
        Some((c, paid)) => ending(c, guarded(w, c, paid)) == Some(e),
        None => false,
    }
}

proof fn lemma_gone(m: MachineView, j: nat, k: nat)
    requires
        m.after(j) is None,
        j <= k,
    ensures
        m.after(k) is None,
    decreases k,
{
    if j < k {
        lemma_gone(m, j, (k - 1) as nat);
    }
}

proof fn lemma_kept_up(w: Seq<Weave>, a: MachineView, paid: bool, b: MachineView, n: nat) -> (k: nat)
    requires
        twins(w, a, paid, b),
        guarded_after(w, a, paid, n) is Some,
    ensures
        b.after(k) is Some,
        twins(
            w,
            (guarded_after(w, a, paid, n)->0).0,
            (guarded_after(w, a, paid, n)->0).1,
            b.after(k)->0,
        ),
    decreases n,
{
    if n == 0 {
        0
    } else {
        let j = lemma_guarded(w, a, paid, b);
        let next = guarded(w, a, paid).0;
        let k = lemma_kept_up(w, next, passes_over(w, a), b.after(j)->0, (n - 1) as nat);
        lemma_on(b, j, k);
        j + k
    }
}

/// A woven module does what the plain one does when each instruction is paid for first and its
/// operand is fixed: where that run ends, so does its own, in the same way and with the same
/// fuel spent.
pub proof fn law_a_woven_module_keeps_up(
    w: Seq<Weave>,
    a: MachineView,
    paid: bool,
    b: MachineView,
    instructions: nat,
    e: Ending,
) -> (k: nat)
    requires
        twins(w, a, paid, b),
        guarded_ends(w, a, paid, instructions, e),
    ensures
        ends(b, k, e),
        e is Answered ==> b.after(k)->0.meter == (guarded_after(w, a, paid, instructions)->0).0.meter,
{
    let k = lemma_kept_up(w, a, paid, b, instructions);
    let (c, paid) = guarded_after(w, a, paid, instructions)->0;
    if c.finished {
        k
    } else {
        let j = lemma_guarded(w, c, paid, b.after(k)->0);
        lemma_on(b, k, j);
        k + j
    }
}

/// And nothing else: where its own run ends, so does that one.
pub proof fn law_a_woven_module_does_nothing_else(
    w: Seq<Weave>,
    a: MachineView,
    paid: bool,
    b: MachineView,
    instructions: nat,
    e: Ending,
) -> (n: nat)
    requires
        twins(w, a, paid, b),
        ends(b, instructions, e),
    ensures
        guarded_ends(w, a, paid, n, e),
        e is Answered ==> b.after(instructions)->0.meter == (guarded_after(w, a, paid, n)->0).0.meter,
    decreases instructions,
{
    let k = instructions;
    let c = b.after(k)->0;
    assert(b.after(k + 1) is None);
    if a.finished {
        if k > 0 {
            assert(b.after(1) is None) by {
                reveal_with_fuel(MachineView::after, 2);
            }
            lemma_gone(b, 1, k);
        }
        0
    } else {
        let j = lemma_guarded(w, a, paid, b);
        if k < j {
            lemma_gone(b, k + 1, j);
        }
        match guarded(w, a, paid) {
            (_, Err(t)) => {
                assert(b.after(j + 1) is None);
                if j < k {
                    lemma_gone(b, j + 1, k);
                }
                0
            },
            (next, Ok(_)) => {
                let rest = (k - j) as nat;
                lemma_on(b, j, rest);
                let n = law_a_woven_module_does_nothing_else(
                    w,
                    next,
                    passes_over(w, a),
                    b.after(j)->0,
                    rest,
                    e,
                );
                n + 1
            },
        }
    }
}

/// A machine that has not entered its entry point.
spec fn unentered(image: Image, input: Seq<u8>, limits: Limits) -> MachineView {
    MachineView {
        image,
        limits,
        memory: with_data(MemoryView::fresh(image.memory), image.data@)->Ok_0,
        globals: image.globals@.map_values(|g: GlobalSpec| g.init),
        stack: Seq::empty(),
        frames: Seq::empty(),
        table: table_of(image)->Ok_0,
        meter: MeterState::at(0, limits.fuel as nat, limits.snapshot_interval_log2 as nat),
        input,
        output: Seq::empty(),
        output_digest: output_hash(Seq::empty()),
        dropped_data: Seq::new(image.data@.len(), |i: int| false),
        dropped_elements: Seq::new(image.elements@.len(), |i: int| false),
        steps: 0,
        finished: false,
    }
}

proof fn lemma_same_data(memory: MemoryView, a: Seq<DataSegment>, b: Seq<DataSegment>)
    requires
        a.len() == b.len(),
        forall|i: int|
            0 <= i < a.len() ==> (#[trigger] a[i]).deep_view() == b[i].deep_view(),
    ensures
        with_data(memory, a) == with_data(memory, b),
    decreases a.len(),
{
    if a.len() > 0 {
        lemma_same_data(memory, a.drop_last(), b.drop_last());
        assert(a[a.len() - 1].deep_view() == b[a.len() - 1].deep_view());
    }
}

proof fn lemma_same_table(
    table: Seq<Option<u32>>,
    a: Seq<ElementSegment>,
    b: Seq<ElementSegment>,
)
    requires
        a.len() == b.len(),
        forall|i: int|
            0 <= i < a.len() ==> (#[trigger] a[i]).deep_view() == b[i].deep_view(),
    ensures
        with_segments(table, a) == with_segments(table, b),
    decreases a.len(),
{
    if a.len() > 0 {
        lemma_same_table(table, a.drop_last(), b.drop_last());
        assert(a[a.len() - 1].deep_view() == b[a.len() - 1].deep_view());
        if let Ok(t) = with_segments(table, a.drop_last()) {
            match (with_segment(t, a.last()), with_segment(t, b.last())) {
                (Ok(x), Ok(y)) => {
                    assert(x =~= y);
                },
                _ => {},
            }
        }
    }
}

/// A woven module starts as the plain one does.
pub proof fn law_a_woven_module_starts_alike(
    w: Seq<Weave>,
    plain: Image,
    image: Image,
    input: Seq<u8>,
    limits: Limits,
)
    requires
        weaves(w, plain, image),
    ensures
        match (started(plain, input, limits), started(image, input, limits)) {
            (Ok(a), Ok(b)) => twins(w, a, false, b),
            (Err(s), Err(t)) => s == t,
            _ => false,
        },
{
    let (s, t) = (plain.data, image.data);
    assert(s.deep_view().len() == s@.len() && t.deep_view().len() == t@.len());
    assert forall|i: int| 0 <= i < s@.len() implies (#[trigger] s@[i]).deep_view()
        == t@[i].deep_view() by {
        assert(s.deep_view()[i] == s@[i].deep_view());
        assert(t.deep_view()[i] == t@[i].deep_view());
    }
    lemma_same_data(MemoryView::fresh(plain.memory), s@, t@);
    let (x, y) = (plain.elements, image.elements);
    assert(x.deep_view().len() == x@.len() && y.deep_view().len() == y@.len());
    assert forall|i: int| 0 <= i < x@.len() implies (#[trigger] x@[i]).deep_view()
        == y@[i].deep_view() by {
        assert(x.deep_view()[i] == x@[i].deep_view());
        assert(y.deep_view()[i] == y@[i].deep_view());
    }
    let size = match plain.table {
        Some(t) => t.initial as nat,
        None => 0nat,
    };
    lemma_same_table(Seq::new(size, |i: int| None), x@, y@);
    assert(table_of(plain) == table_of(image));
    if with_data(MemoryView::fresh(plain.memory), s@) is Ok && table_of(plain) is Ok {
        let first = unentered(plain, input, limits);
        let second = unentered(image, input, limits);
        assert(first.dropped_data =~= second.dropped_data);
        assert(first.dropped_elements =~= second.dropped_elements);
        lemma_entered(w, first, second, plain.entry);
    }
}

/// Do two modules pay for the same instructions and fix the same operands, whatever each fixes
/// behind its instructions?
pub open spec fn guard_alike(w: Seq<Weave>, v: Seq<Weave>) -> bool {
    &&& w.len() == v.len()
    &&& forall|p: int|
        0 <= p < w.len() ==> (#[trigger] w[p]).amounts == v[p].amounts && w[p].before == v[p].before
}

proof fn lemma_guard_alike(
    w: Seq<Weave>,
    v: Seq<Weave>,
    a: MachineView,
    paid: bool,
    b: MachineView,
    n: nat,
    e: Ending,
)
    requires
        twins(w, a, paid, b),
        guard_alike(w, v),
        guarded_ends(w, a, paid, n, e),
    ensures
        guarded_ends(v, a, paid, n, e),
        guarded_after(v, a, paid, n) == guarded_after(w, a, paid, n),
    decreases n,
{
    assert(next_of(w, a) is Some == next_of(v, a) is Some && guarded(w, a, paid) == guarded(
        v,
        a,
        paid,
    ) && passes_over(w, a) == passes_over(v, a)) by {
        if !a.finished && a.frames.len() > 0 {
            let k = a.frames.len() - 1;
            assert(frame_twin(w, a.image, a.frames[k], b.frames[k], paid));
            let p = a.image.defined(a.top().function)->0;
            assert(w[p].amounts == v[p].amounts);
        }
    }
    if n > 0 {
        let j = lemma_guarded(w, a, paid, b);
        let next = guarded(w, a, paid).0;
        lemma_guard_alike(w, v, next, passes_over(w, a), b.after(j)->0, (n - 1) as nat, e);
    }
}

/// The ways of canonicalizing agree. Two modules that are woven from one, pay for the same
/// instructions and fix the same operands, but differ in what they fix behind instructions that
/// may make a NaN, end alike on every input: where a run of one ends, so does that of the other,
/// with the same answer and the same fuel spent, or with the same trap.
pub proof fn law_canonicalizations_agree(
    w: Seq<Weave>,
    v: Seq<Weave>,
    plain: Image,
    one: Image,
    other: Image,
    input: Seq<u8>,
    limits: Limits,
    instructions: nat,
    e: Ending,
) -> (k: nat)
    requires
        weaves(w, plain, one),
        weaves(v, plain, other),
        guard_alike(w, v),
        started(one, input, limits) is Ok,
        ends(started(one, input, limits)->Ok_0, instructions, e),
    ensures
        started(other, input, limits) is Ok,
        ends(started(other, input, limits)->Ok_0, k, e),
        e is Answered ==> started(other, input, limits)->Ok_0.after(k)->0.meter == started(
            one,
            input,
            limits,
        )->Ok_0.after(instructions)->0.meter,
{
    law_a_woven_module_starts_alike(w, plain, one, input, limits);
    law_a_woven_module_starts_alike(v, plain, other, input, limits);
    let a = started(plain, input, limits)->Ok_0;
    let b = started(one, input, limits)->Ok_0;
    let c = started(other, input, limits)->Ok_0;
    let n = law_a_woven_module_does_nothing_else(w, a, false, b, instructions, e);
    lemma_guard_alike(w, v, a, false, b, n, e);
    law_a_woven_module_keeps_up(v, a, false, c, n, e)
}

/// A machine with another meter.
pub open spec fn refuelled(m: MachineView, meter: MeterState) -> MachineView {
    MachineView { meter, ..m }
}

/// Does an instruction do the same whatever the meter says, and leave it alone?
pub open spec fn ignores(meter: MeterState, c: Outcome, d: Outcome) -> bool {
    d == (refuelled(c.0, meter), c.1)
}

proof fn lemma_refuelled_structure(m: MachineView, meter: MeterState, op: Operator)
    ensures
        ignores(meter, m.left(), refuelled(m, meter).left()),
        ignores(meter, m.selected(), refuelled(m, meter).selected()),
        ignores(meter, m.variable(op), refuelled(m, meter).variable(op)),
{
    reveal(MachineView::left);
    reveal(MachineView::selected);
    reveal(MachineView::variable);
}

proof fn lemma_refuelled_bulk(m: MachineView, meter: MeterState, op: Operator)
    ensures
        ignores(meter, m.bulk(op), refuelled(m, meter).bulk(op)),
{
    reveal(MachineView::bulk);
    reveal(MachineView::initialised);
}

proof fn lemma_refuelled_access(
    m: MachineView,
    meter: MeterState,
    op: Operator,
    offset: u64,
    kind: Kind,
    width: nat,
)
    ensures
        ignores(meter, m.load(op, offset, width), refuelled(m, meter).load(op, offset, width)),
        ignores(
            meter,
            m.store(offset, kind, width),
            refuelled(m, meter).store(offset, kind, width),
        ),
{
    reveal(MachineView::load);
    reveal(MachineView::store);
}

proof fn lemma_refuelled_branched(m: MachineView, meter: MeterState, depth: u32)
    ensures
        ignores(meter, m.branched(depth), refuelled(m, meter).branched(depth)),
{
    reveal(MachineView::branched);
    lemma_refuelled_structure(m, meter, Operator::Nop);
}

proof fn lemma_refuelled_branching(m: MachineView, meter: MeterState, op: Operator)
    ensures
        ignores(meter, m.branching(op), refuelled(m, meter).branching(op)),
{
    reveal(MachineView::branching);
    lemma_refuelled_structure(m, meter, op);
    assert forall|c: MachineView, depth: u32| ignores(
        meter,
        #[trigger] c.branched(depth),
        refuelled(c, meter).branched(depth),
    ) by {
        lemma_refuelled_branched(c, meter, depth);
    }
}

proof fn lemma_refuelled_block(
    m: MachineView,
    meter: MeterState,
    f: Function,
    pc: u32,
    ty: BlockType,
    is_loop: bool,
)
    ensures
        ignores(
            meter,
            m.block(f, pc, ty, is_loop),
            refuelled(m, meter).block(f, pc, ty, is_loop),
        ),
        ignores(meter, m.branch_if(f, pc, ty), refuelled(m, meter).branch_if(f, pc, ty)),
{
    reveal(MachineView::block);
    reveal(MachineView::branch_if);
}

proof fn lemma_refuelled_called(m: MachineView, meter: MeterState, index: u32)
    requires
        index != m.image.charge,
    ensures
        ignores(meter, m.called(index), refuelled(m, meter).called(index)),
{
    reveal(MachineView::called);
    reveal(MachineView::hosted);
    reveal(MachineView::entered);
}

proof fn lemma_refuelled_called_indirect(m: MachineView, meter: MeterState, index: u32)
    requires
        forall|i: int| 0 <= i < m.table.len() ==> #[trigger] m.table[i] != Some(m.image.charge),
    ensures
        ignores(meter, m.called_indirect(index), refuelled(m, meter).called_indirect(index)),
{
    reveal(MachineView::called_indirect);
    if let (c, Ok(slot)) = m.popped_i32() {
        let slot = slot as u32;
        if slot < c.table.len() {
            if let Some(target) = c.table[slot as int] {
                lemma_refuelled_called(c, meter, target);
            }
        }
    }
}

proof fn lemma_refuelled_executed(
    m: MachineView,
    meter: MeterState,
    op: Operator,
    f: Function,
    pc: u32,
)
    requires
        op != (Operator::Call { function_index: m.image.charge }),
        forall|i: int| 0 <= i < m.table.len() ==> #[trigger] m.table[i] != Some(m.image.charge),
    ensures
        ignores(meter, m.executed(op, f, pc), refuelled(m, meter).executed(op, f, pc)),
{
    reveal(MachineView::executed);
    match op {
        Operator::Block { blockty } => lemma_refuelled_block(m, meter, f, pc, blockty, false),
        Operator::Loop { blockty } => lemma_refuelled_block(m, meter, f, pc, blockty, true),
        Operator::If { blockty } => lemma_refuelled_block(m, meter, f, pc, blockty, false),
        Operator::Else
        | Operator::End
        | Operator::Br { .. }
        | Operator::BrIf { .. }
        | Operator::BrTable { .. }
        | Operator::Return => lemma_refuelled_branching(m, meter, op),
        Operator::Call { function_index } => lemma_refuelled_called(m, meter, function_index),
        Operator::CallIndirect { type_index } => lemma_refuelled_called_indirect(
            m,
            meter,
            type_index,
        ),
        Operator::MemorySize
        | Operator::MemoryGrow
        | Operator::MemoryFill
        | Operator::MemoryCopy
        | Operator::MemoryInit { .. }
        | Operator::DataDrop { .. }
        | Operator::ElemDrop { .. } => lemma_refuelled_bulk(m, meter, op),
        _ => {
            lemma_refuelled_structure(m, meter, op);
            if let Some((offset, width)) = load_shape(op) {
                lemma_refuelled_access(m, meter, op, offset, Kind::I32, width);
            }
            if let Some((offset, kind, width)) = store_shape(op) {
                lemma_refuelled_access(m, meter, op, offset, kind, width);
            }
        },
    }
}

pub proof fn lemma_refuelled_stepped(m: MachineView, meter: MeterState, p: int)
    requires
        !m.finished,
        m.frames.len() > 0,
        m.image.defined(m.top().function) == Some(p),
        m.top().pc < m.image.functions@[p].ops@.len(),
        m.image.functions@[p].ops@[m.top().pc as int] != (Operator::Call {
            function_index: m.image.charge,
        }),
        forall|i: int| 0 <= i < m.table.len() ==> #[trigger] m.table[i] != Some(m.image.charge),
    ensures
        ignores(meter, m.stepped(), refuelled(m, meter).stepped()),
{
    let f = m.image.functions@[p];
    let op = f.ops@[m.top().pc as int];
    let (stack, handled) = applied(op, m.stack);
    lemma_refuelled_executed(m.advanced().with_stack(stack), meter, op, f, m.top().pc);
}

/// Does one module fix the same operands as another, and pay for nothing?
pub open spec fn pays_nothing(w: Seq<Weave>, v: Seq<Weave>) -> bool {
    &&& w.len() == v.len()
    &&& forall|p: int|
        0 <= p < w.len() ==> (#[trigger] v[p]).before == w[p].before && v[p].len() == w[p].len()
    &&& forall|p: int, i: int|
        0 <= p < w.len() && 0 <= i < v[p].len() ==> (#[trigger] v[p].amounts[i]) == 0
}

/// Paying for an instruction ends the run or leaves all but the meter as it is.
proof fn lemma_payment(
    w: Seq<Weave>,
    v: Seq<Weave>,
    a: MachineView,
    meter: MeterState,
    paid: bool,
    b: MachineView,
) -> (after: MeterState)
    requires
        twins(v, a, paid, b),
        pays_nothing(w, v),
        !a.finished,
    ensures
        passes_over(w, refuelled(a, meter)) == passes_over(v, a),
        ({
            let o = guarded(w, refuelled(a, meter), paid);
            o.1 == Err::<Progress, TrapView>(TrapView::OutOfFuel) || ignores(
                after,
                guarded(v, a, paid),
                o,
            )
        }),
{
    if a.frames.len() == 0 {
        meter
    } else {
        let k = a.frames.len() - 1;
        assert(frame_twin(v, a.image, a.frames[k], b.frames[k], paid));
        let p = a.image.defined(a.top().function)->0;
        let i = a.top().pc as int;
        assert(v[p].before == w[p].before);
        assert(woven(a.image.charge, v[p], a.image.functions@[p], b.image.functions@[p]));
        assert(v[p].len() == a.image.functions@[p].ops@.len()) by {
            reveal(woven);
        }
        if i < v[p].len() {
            assert(stands_for(
                a.image.charge,
                v[p],
                a.image.functions@[p],
                b.image.functions@[p],
                i,
            )) by {
                reveal(woven);
            }
            assert(v[p].amounts[i] == 0);
            match (paid_for(w[p], i, paid, meter), operand_fixed(v[p].before[i], a.stack)) {
                (Some(after), Ok(stack)) => {
                    lemma_refuelled_stepped(a.with_stack(stack), after, p);
                    after
                },
                _ => meter,
            }
        } else {
            meter
        }
    }
}

proof fn lemma_paying(
    w: Seq<Weave>,
    v: Seq<Weave>,
    a: MachineView,
    meter: MeterState,
    paid: bool,
    b: MachineView,
    n: nat,
    e: Ending,
) -> (k: nat)
    requires
        twins(v, a, paid, b),
        pays_nothing(w, v),
        guarded_ends(v, a, paid, n, e),
    ensures
        guarded_ends(w, refuelled(a, meter), paid, k, e) || guarded_ends(
            w,
            refuelled(a, meter),
            paid,
            k,
            Ending::Trapped(TrapView::OutOfFuel),
        ),
    decreases n,
{
    if a.finished {
        0
    } else {
        let after = lemma_payment(w, v, a, meter, paid, b);
        let o = guarded(w, refuelled(a, meter), paid);
        if n == 0 || o.1 is Err {
            0
        } else {
            let j = lemma_guarded(v, a, paid, b);
            let next = guarded(v, a, paid).0;
            let k = lemma_paying(
                w,
                v,
                next,
                after,
                passes_over(v, a),
                b.after(j)->0,
                (n - 1) as nat,
                e,
            );
            k + 1
        }
    }
}

proof fn lemma_not_paying(
    w: Seq<Weave>,
    v: Seq<Weave>,
    a: MachineView,
    meter: MeterState,
    paid: bool,
    b: MachineView,
    n: nat,
    e: Ending,
)
    requires
        twins(v, a, paid, b),
        pays_nothing(w, v),
        guarded_ends(w, refuelled(a, meter), paid, n, e),
        e != Ending::Trapped(TrapView::OutOfFuel),
    ensures
        guarded_ends(v, a, paid, n, e),
    decreases n,
{
    if !a.finished {
        let after = lemma_payment(w, v, a, meter, paid, b);
        if n > 0 {
            let j = lemma_guarded(v, a, paid, b);
            let next = guarded(v, a, paid).0;
            lemma_not_paying(
                w,
                v,
                next,
                after,
                passes_over(v, a),
                b.after(j)->0,
                (n - 1) as nat,
                e,
            );
        }
    }
}

/// Metering does not change what a program computes. Where a run of a module without charges
/// ends, so does that of the same with charges, with the same answer or trap, unless its fuel is
/// spent first.
pub proof fn law_metering_does_not_change_the_answer(
    w: Seq<Weave>,
    v: Seq<Weave>,
    plain: Image,
    metered: Image,
    unmetered: Image,
    input: Seq<u8>,
    limits: Limits,
    instructions: nat,
    e: Ending,
) -> (k: nat)
    requires
        weaves(w, plain, metered),
        weaves(v, plain, unmetered),
        pays_nothing(w, v),
        started(unmetered, input, limits) is Ok,
        ends(started(unmetered, input, limits)->Ok_0, instructions, e),
    ensures
        started(metered, input, limits) is Ok,
        ends(started(metered, input, limits)->Ok_0, k, e) || ends(
            started(metered, input, limits)->Ok_0,
            k,
            Ending::Trapped(TrapView::OutOfFuel),
        ),
{
    law_a_woven_module_starts_alike(w, plain, metered, input, limits);
    law_a_woven_module_starts_alike(v, plain, unmetered, input, limits);
    let a = started(plain, input, limits)->Ok_0;
    let b = started(unmetered, input, limits)->Ok_0;
    let c = started(metered, input, limits)->Ok_0;
    let n = law_a_woven_module_does_nothing_else(v, a, false, b, instructions, e);
    let m = lemma_paying(w, v, a, a.meter, false, b, n, e);
    if guarded_ends(w, a, false, m, e) {
        law_a_woven_module_keeps_up(w, a, false, c, m, e)
    } else {
        law_a_woven_module_keeps_up(
            w,
            a,
            false,
            c,
            m,
            Ending::Trapped(TrapView::OutOfFuel),
        )
    }
}

/// Nor does it add any: where a run of a metered module ends, and not for want of fuel, so does
/// that of the same without charges, in the same way.
pub proof fn law_a_metered_answer_is_the_answer(
    w: Seq<Weave>,
    v: Seq<Weave>,
    plain: Image,
    metered: Image,
    unmetered: Image,
    input: Seq<u8>,
    limits: Limits,
    instructions: nat,
    e: Ending,
) -> (k: nat)
    requires
        weaves(w, plain, metered),
        weaves(v, plain, unmetered),
        pays_nothing(w, v),
        started(metered, input, limits) is Ok,
        ends(started(metered, input, limits)->Ok_0, instructions, e),
        e != Ending::Trapped(TrapView::OutOfFuel),
    ensures
        started(unmetered, input, limits) is Ok,
        ends(started(unmetered, input, limits)->Ok_0, k, e),
{
    law_a_woven_module_starts_alike(w, plain, metered, input, limits);
    law_a_woven_module_starts_alike(v, plain, unmetered, input, limits);
    let a = started(plain, input, limits)->Ok_0;
    let b = started(unmetered, input, limits)->Ok_0;
    let c = started(metered, input, limits)->Ok_0;
    let n = law_a_woven_module_does_nothing_else(w, a, false, c, instructions, e);
    lemma_not_paying(w, v, a, a.meter, false, b, n, e);
    law_a_woven_module_keeps_up(v, a, false, b, n, e)
}

} // verus!
