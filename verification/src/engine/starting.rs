//! How a module starts.
//!
//! A machine that has just been started holds what the module declares: its table and memory are
//! what the segments put there, each later one over the earlier, and nothing else.
use crate::engine::execution::{started, table_of, with_data, with_segment, with_segments};
use crate::engine::image::{DataSegment, ElementSegment, Image};
use crate::engine::machine::Limits;
use crate::engine::memory::MemoryView;
use crate::engine::numeric::TrapView;
use crate::engine::semantics::MachineView;
use crate::state::Value;
use crate::wasm::ValTypeView;
use vstd::prelude::*;

verus! {

/// Does an element segment fill this slot of the table?
pub open spec fn fills(segment: ElementSegment, slot: int) -> bool {
    segment matches ElementSegment::Active { offset, functions } && offset <= slot < offset
        + functions@.len()
}

/// Is this the last segment of a list that fills a slot?
pub open spec fn fills_last(segments: Seq<ElementSegment>, k: int, slot: int) -> bool {
    &&& 0 <= k < segments.len()
    &&& fills(segments[k], slot)
    &&& forall|l: int| k < l < segments.len() ==> !fills(#[trigger] segments[l], slot)
}

/// Does no segment of a list fill a slot?
pub open spec fn fills_never(segments: Seq<ElementSegment>, slot: int) -> bool {
    forall|l: int| 0 <= l < segments.len() ==> !fills(#[trigger] segments[l], slot)
}

/// Does an element segment fit into a table?
pub open spec fn fits_table(segment: ElementSegment, size: nat) -> bool {
    segment matches ElementSegment::Active { offset, functions } ==> functions@.len() == 0 || offset
        + functions@.len() <= size
}

proof fn lemma_filled(table: Seq<Option<u32>>, segments: Seq<ElementSegment>)
    ensures
        (with_segments(table, segments) is Ok) == (forall|k: int|
            0 <= k < segments.len() ==> fits_table(#[trigger] segments[k], table.len())),
        with_segments(table, segments) matches Err(t) ==> t == TrapView::TableOutOfBounds,
        with_segments(table, segments) matches Ok(t) ==> {
            &&& t.len() == table.len()
            &&& forall|slot: int|
                0 <= slot < t.len() && fills_never(segments, slot) ==> #[trigger] t[slot]
                    == table[slot]
            &&& forall|k: int, slot: int| #[trigger]
                fills_last(segments, k, slot) ==> slot < t.len() && t[slot] == Some(
                    segments[k]->Active_functions@[slot - segments[k]->Active_offset],
                )
        },
    decreases segments.len(),
{
    if segments.len() > 0 {
        let n = segments.len() - 1;
        let before = segments.drop_last();
        lemma_filled(table, before);
        assert forall|k: int| 0 <= k < before.len() implies before[k] == #[trigger] segments[k] by {}
        if with_segments(table, before) is Ok {
            let t = with_segments(table, before)->Ok_0;
            let last = segments.last();
            assert(segments[n] == last);
            if with_segments(table, segments) is Ok {
                let r = with_segments(table, segments)->Ok_0;
                assert forall|slot: int|
                    0 <= slot < r.len() && fills_never(segments, slot) implies #[trigger] r[slot]
                    == table[slot] by {
                    assert(!fills(segments[n], slot));
                    assert(fills_never(before, slot)) by {
                        assert forall|l: int| 0 <= l < before.len() implies !fills(
                            #[trigger] before[l],
                            slot,
                        ) by {
                            assert(!fills(segments[l], slot));
                        }
                    }
                    assert(t[slot] == table[slot]);
                }
                assert forall|k: int, slot: int| #[trigger]
                    fills_last(segments, k, slot) implies slot < r.len() && r[slot] == Some(
                    segments[k]->Active_functions@[slot - segments[k]->Active_offset],
                ) by {
                    if k < n {
                        assert(!fills(segments[n], slot));
                        assert(fills_last(before, k, slot)) by {
                            assert(before[k] == segments[k]);
                            assert forall|l: int| k < l < before.len() implies !fills(
                                #[trigger] before[l],
                                slot,
                            ) by {
                                assert(!fills(segments[l], slot));
                            }
                        }
                    }
                }
            }
        }
        if with_segments(table, before) is Err {
            assert(exists|k: int|
                0 <= k < before.len() && !fits_table(#[trigger] before[k], table.len()));
            let k = choose|k: int|
                0 <= k < before.len() && !fits_table(#[trigger] before[k], table.len());
            assert(!fits_table(segments[k], table.len()));
        } else {
            let t = with_segments(table, before)->Ok_0;
            assert(with_segments(table, segments) == with_segment(t, segments.last()));
            if forall|k: int|
                0 <= k < segments.len() ==> fits_table(#[trigger] segments[k], table.len()) {
                assert(fits_table(segments[n], table.len()));
            }
            if with_segments(table, segments) is Ok {
                assert forall|k: int| 0 <= k < segments.len() implies fits_table(
                    #[trigger] segments[k],
                    table.len(),
                ) by {
                    if k < n {
                        assert(fits_table(before[k], table.len()));
                    }
                }
            }
        }
    }
}

/// How many slots the table of a module has.
pub open spec fn table_size(image: Image) -> nat {
    match image.table {
        Some(t) => t.initial as nat,
        None => 0,
    }
}

/// The table of a machine that was started has as many slots as the module declares. A slot holds
/// what the last active segment over it has for it, and nothing if there is none.
pub proof fn law_the_table_holds_its_segments(
    image: Image,
    input: Seq<u8>,
    limits: Limits,
    slot: int,
    k: int,
)
    requires
        started(image, input, limits) is Ok,
    ensures
        ({
            let table = started(image, input, limits)->Ok_0.table;
            &&& table.len() == table_size(image)
            &&& 0 <= slot < table.len() && fills_never(image.elements@, slot) ==> table[slot] is None
            &&& fills_last(image.elements@, k, slot) ==> slot < table.len() && table[slot] == Some(
                image.elements@[k]->Active_functions@[slot - image.elements@[k]->Active_offset],
            )
        }),
{
    reveal(MachineView::entered);
    lemma_filled(Seq::new(table_size(image), |i: int| None), image.elements@);
    assert(table_of(image)->Ok_0 == started(image, input, limits)->Ok_0.table);
}

/// Does a data segment lie over this byte?
pub open spec fn covers(segment: DataSegment, at: int) -> bool {
    segment matches DataSegment::Active { offset, bytes } && offset <= at < offset + bytes@.len()
}

/// Is this the last segment of a list over a byte?
pub open spec fn covers_last(segments: Seq<DataSegment>, k: int, at: int) -> bool {
    &&& 0 <= k < segments.len()
    &&& covers(segments[k], at)
    &&& forall|l: int| k < l < segments.len() ==> !covers(#[trigger] segments[l], at)
}

/// Is no segment of a list over a byte?
pub open spec fn covers_never(segments: Seq<DataSegment>, at: int) -> bool {
    forall|l: int| 0 <= l < segments.len() ==> !covers(#[trigger] segments[l], at)
}

/// Does a data segment fit into a memory?
pub open spec fn fits_memory(segment: DataSegment, size: nat) -> bool {
    segment matches DataSegment::Active { offset, bytes } ==> offset + bytes@.len() <= size
}

proof fn lemma_covered(memory: MemoryView, segments: Seq<DataSegment>)
    requires
        memory.resident is None,
    ensures
        (with_data(memory, segments) is Ok) == (forall|k: int|
            0 <= k < segments.len() ==> fits_memory(#[trigger] segments[k], memory.bytes.len())),
        with_data(memory, segments) matches Err(t) ==> t == TrapView::MemoryOutOfBounds,
        with_data(memory, segments) matches Ok(m) ==> {
            &&& m.bytes.len() == memory.bytes.len()
            &&& m.pages == memory.pages
            &&& m.max_pages == memory.max_pages
            &&& m.resident is None
            &&& forall|at: int|
                0 <= at < m.bytes.len() && covers_never(segments, at) ==> #[trigger] m.bytes[at]
                    == memory.bytes[at]
            &&& forall|k: int, at: int| #[trigger]
                covers_last(segments, k, at) ==> at < m.bytes.len() && m.bytes[at]
                    == segments[k]->Active_bytes@[at - segments[k]->Active_offset]
        },
    decreases segments.len(),
{
    if segments.len() > 0 {
        let n = segments.len() - 1;
        let before = segments.drop_last();
        lemma_covered(memory, before);
        assert forall|k: int| 0 <= k < before.len() implies before[k] == #[trigger] segments[k] by {}
        if with_data(memory, before) is Ok {
            let m = with_data(memory, before)->Ok_0;
            assert(segments[n] == segments.last());
            if with_data(memory, segments) is Ok {
                let r = with_data(memory, segments)->Ok_0;
                assert forall|at: int|
                    0 <= at < r.bytes.len() && covers_never(segments, at) implies #[trigger] r.bytes[at]
                    == memory.bytes[at] by {
                    assert(!covers(segments[n], at));
                    assert(covers_never(before, at)) by {
                        assert forall|l: int| 0 <= l < before.len() implies !covers(
                            #[trigger] before[l],
                            at,
                        ) by {
                            assert(!covers(segments[l], at));
                        }
                    }
                    assert(m.bytes[at] == memory.bytes[at]);
                }
                assert forall|k: int, at: int| #[trigger] covers_last(segments, k, at) implies at
                    < r.bytes.len() && r.bytes[at] == segments[k]->Active_bytes@[at
                    - segments[k]->Active_offset] by {
                    if k < n {
                        assert(!covers(segments[n], at));
                        assert(covers_last(before, k, at)) by {
                            assert(before[k] == segments[k]);
                            assert forall|l: int| k < l < before.len() implies !covers(
                                #[trigger] before[l],
                                at,
                            ) by {
                                assert(!covers(segments[l], at));
                            }
                        }
                    }
                }
                assert forall|k: int| 0 <= k < segments.len() implies fits_memory(
                    #[trigger] segments[k],
                    memory.bytes.len(),
                ) by {
                    if k < n {
                        assert(fits_memory(before[k], memory.bytes.len()));
                    }
                }
            }
            if forall|k: int|
                0 <= k < segments.len() ==> fits_memory(
                    #[trigger] segments[k],
                    memory.bytes.len(),
                ) {
                assert(fits_memory(segments[n], memory.bytes.len()));
            }
        } else {
            assert(exists|k: int|
                0 <= k < before.len() && !fits_memory(#[trigger] before[k], memory.bytes.len()));
            let k = choose|k: int|
                0 <= k < before.len() && !fits_memory(#[trigger] before[k], memory.bytes.len());
            assert(!fits_memory(segments[k], memory.bytes.len()));
        }
    }
}

/// The memory of a machine that was started has the declared pages and ceiling. A byte is what the
/// last active segment over it has for it, and zero if there is none.
pub proof fn law_the_memory_holds_its_segments(
    image: Image,
    input: Seq<u8>,
    limits: Limits,
    at: int,
    k: int,
)
    requires
        started(image, input, limits) is Ok,
    ensures
        ({
            let memory = started(image, input, limits)->Ok_0.memory;
            &&& memory.pages == image.memory.initial_pages
            &&& memory.max_pages == image.memory.maximum_pages
            &&& memory.bytes.len() == image.memory.initial_pages * 65536
            &&& 0 <= at < memory.bytes.len() && covers_never(image.data@, at) ==> memory.bytes[at]
                == 0
            &&& covers_last(image.data@, k, at) ==> at < memory.bytes.len() && memory.bytes[at]
                == image.data@[k]->Active_bytes@[at - image.data@[k]->Active_offset]
        }),
{
    reveal(MachineView::entered);
    lemma_covered(MemoryView::fresh(image.memory), image.data@);
}

/// Is this the zero of a type?
pub open spec fn is_zero(ty: ValTypeView, v: Value) -> bool {
    match ty {
        ValTypeView::I64 => v == Value::I64(0),
        ValTypeView::F32 => v == Value::F32(0),
        ValTypeView::F64 => v == Value::F64(0),
        _ => v == Value::I32(0),
    }
}

/// A machine that was started is at the first instruction of the entry point, which takes nothing,
/// with its locals at zero. Its globals have their initial values; nothing is on the stack, nothing
/// was answered, dropped, executed or charged.
pub proof fn law_a_machine_starts_at_the_entry_point(image: Image, input: Seq<u8>, limits: Limits)
    requires
        image.host_imports@.len() <= u32::MAX,
        started(image, input, limits) is Ok,
    ensures
        ({
            let m = started(image, input, limits)->Ok_0;
            let body = image.functions@[image.entry - image.host_imports@.len()];
            let f = m.frames[0];
            &&& m.image == image
            &&& m.limits == limits
            &&& m.input == input
            &&& m.frames.len() == 1
            &&& f.function == image.entry
            &&& f.pc == 0
            &&& f.labels.len() == 0
            &&& f.stack_base == 0
            &&& f.locals.len() == body.local_types@.len()
            &&& forall|i: int|
                0 <= i < f.locals.len() ==> is_zero(
                    body.local_types@[i].deep_view(),
                    #[trigger] f.locals[i],
                )
            &&& m.stack.len() == 0
            &&& m.globals.len() == image.globals@.len()
            &&& forall|i: int|
                0 <= i < m.globals.len() ==> #[trigger] m.globals[i] == image.globals@[i].init
            &&& m.dropped_data.len() == image.data@.len()
            &&& forall|i: int| 0 <= i < m.dropped_data.len() ==> !#[trigger] m.dropped_data[i]
            &&& m.dropped_elements.len() == image.elements@.len()
            &&& forall|i: int|
                0 <= i < m.dropped_elements.len() ==> !#[trigger] m.dropped_elements[i]
            &&& m.output.len() == 0
            &&& m.meter.consumed == 0
            &&& m.meter.limit == limits.fuel
            &&& m.meter.interval_log2 == limits.snapshot_interval_log2
            &&& m.steps == 0
            &&& !m.finished
        }),
{
    reveal(MachineView::entered);
}

/// A module starts exactly if snapshots can be scheduled, every active segment fits, a call may be
/// made, and the entry point is a function of the module that takes nothing.
pub proof fn law_what_fits_starts(image: Image, input: Seq<u8>, limits: Limits)
    requires
        image.host_imports@.len() <= u32::MAX,
    ensures
        started(image, input, limits) is Ok <==> {
            &&& limits.snapshot_interval_log2 <= 63
            &&& forall|k: int|
                0 <= k < image.data@.len() ==> fits_memory(
                    #[trigger] image.data@[k],
                    (image.memory.initial_pages * 65536) as nat,
                )
            &&& forall|k: int|
                0 <= k < image.elements@.len() ==> fits_table(
                    #[trigger] image.elements@[k],
                    table_size(image),
                )
            &&& limits.max_call_depth > 0
            &&& image.entry < image.func_types@.len()
            &&& image.func_types@[image.entry as int] < image.types@.len()
            &&& image.types@[image.func_types@[image.entry as int] as int].params@.len() == 0
            &&& image.host_imports@.len() <= image.entry < image.host_imports@.len()
                + image.functions@.len()
        },
{
    reveal(MachineView::entered);
    lemma_covered(MemoryView::fresh(image.memory), image.data@);
    lemma_filled(Seq::new(table_size(image), |i: int| None), image.elements@);
}

} // verus!
