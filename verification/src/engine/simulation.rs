//! A machine rebuilt from a witness executes as the machine it was taken from.
//!
//! The two have the same state but for memory, of which the rebuilt one holds some pages only.
//! Whatever instruction comes next, either it reaches for a page that is missing, which is
//! reported as such, or both do the same and go on having the same state and the same root.
use crate::bytes::le_bytes;
use crate::engine::execution::{
    Rebuilding, carried, fits_module, frame_fits, frame_placed, is_short, label_fits, label_fits_in,
    label_placed_in, law_a_step_is_one_instruction, lists, rebuilding, restored, running, table_of,
    touches_committed,
};
use crate::engine::image::{Function, HostFunction, Image};
use crate::engine::machine::Limits;
use crate::engine::memory::{
    BackingView, MemoryView, addressable, first_missing, flushed, full_tree, is_flushed,
    lemma_addressable, overwritten, page_of, pages_between, tree_pages,
};
use crate::engine::numeric::{Kind, TrapView, applied, popped};
use crate::engine::operator::{BlockType, Operator};
use crate::engine::semantics::{
    FrameView, MachineView, Outcome, frame_digest, label_digest, load_shape, store_shape,
};
use crate::engine::witness::{LabelWitness, PageView, WitnessError, WitnessView};
use crate::hash::{Digest, collision_among, lemma_collision_grows};
use crate::merkle::{
    PAGE_SIZE, PartialView, accepts, capacity_for, law_nothing_known_agrees,
    law_partial_root_is_the_root,
    law_proof_verifies, law_supplied_pages_stay_supplied, law_supplying_a_page_agrees,
    law_verified_page_is_the_committed_page, law_writing_supplied_pages_agrees, leaf_hash,
    leaf_preimage, lemma_capacity, lemma_capacity_fits, node_inputs, proof_inputs, zero_page,
};
use crate::state::{
    StateCommitment, Value, frames_hash, frames_preimage, labels_preimage, law_frames_hash_binds,
    law_labels_hash_binds, law_memory_hash_binds, law_root_binds_the_state,
    law_segments_hash_binds, law_values_hash_binds, memory_hash, memory_preimage, segments_hash,
    segments_preimage, values_hash, values_preimage,
};
use vstd::prelude::*;

verus! {

/// The pages a memory was given.
pub open spec fn supplied_pages(m: MemoryView) -> Set<u32> {
    match m.resident {
        Some(pages) => pages,
        None => Set::empty(),
    }
}

/// Does a memory rebuilt from proofs agree with the whole one, on the pages it was given?
pub open spec fn mirrors(whole: MemoryView, part: MemoryView) -> bool {
    let given = supplied_pages(part);
    &&& whole.backing is Full
    &&& whole.resident is None
    &&& part.resident is Some
    &&& part.pages == whole.pages
    &&& part.max_pages == whole.max_pages
    &&& whole.bytes.len() == whole.pages * PAGE_SIZE
    &&& part.bytes.len() == whole.bytes.len()
    &&& forall|p: u32| #[trigger]
        given.contains(p) && p < part.pages ==> page_of(whole.bytes, p as int) == page_of(
            part.bytes,
            p as int,
        )
    &&& part.backing matches BackingView::Witnessed { tree, dirty, last_root } && {
        &&& tree.pages == tree_pages(part.max_pages)
        &&& tree.capacity == capacity_for(tree.pages)
        &&& forall|p: u32| #[trigger] given.contains(p) ==> p < tree.pages && tree.supplied(p as nat)
        &&& forall|p: u32| #[trigger] dirty.contains(p) ==> given.contains(p) && p < part.pages
        &&& flushed(tree, dirty, part.bytes).agrees(
            full_tree(whole.bytes, whole.pages, whole.max_pages),
        )
        &&& given == Set::<u32>::empty() ==> tree == PartialView::unknown(tree.pages) && last_root
            == whole.tree_root()
    }
}

proof fn lemma_full_tree(bytes: Seq<u8>, pages: u32, max_pages: u32)
    ensures
        full_tree(bytes, pages, max_pages).well_sized(),
{
    lemma_capacity(tree_pages(max_pages));
}

/// Memories that mirror each other have one root.
proof fn lemma_same_root(whole: MemoryView, part: MemoryView)
    requires
        mirrors(whole, part),
    ensures
        part.tree_root() == whole.tree_root(),
        part.commitment() == whole.commitment(),
{
    let given = supplied_pages(part);
    let (tree, dirty) = (part.backing->tree, part.backing->dirty);
    let now = flushed(tree, dirty, part.bytes);
    if given =~= Set::<u32>::empty() {
        assert(!now.path.contains(1));
        assert(!now.siblings.contains_key(1));
        assert(now.known(1) is None);
    } else {
        let p = choose|p: u32| given.contains(p);
        assert(given.contains(p)) by {
            if forall|p: u32| !given.contains(p) {
                assert(given =~= Set::<u32>::empty());
            }
        }
        lemma_capacity(tree.pages);
        assert(now.supplied(p as nat)) by {
            assert(tree.supplied(p as nat));
        }
        law_partial_root_is_the_root(
            now,
            full_tree(whole.bytes, whole.pages, whole.max_pages),
            p as nat,
        );
    }
}

proof fn lemma_first_missing(pages: Set<u32>, first: int, last: int)
    requires
        0 <= first,
        last <= u32::MAX,
    ensures
        match first_missing(pages, first, last) {
            Some(m) => first <= m <= last && !pages.contains(m),
            None => forall|p: u32| first <= p <= last ==> #[trigger] pages.contains(p),
        },
    decreases last - first + 1,
{
    if first <= last && pages.contains(first as u32) {
        lemma_first_missing(pages, first + 1, last);
    }
}

/// How the outcome of a memory operation on a rebuilt memory follows that on the whole one.
spec fn shadows<T>(
    before: MemoryView,
    whole: (MemoryView, Result<T, TrapView>),
    part: (MemoryView, Result<T, TrapView>),
) -> bool {
    &&& supplied_pages(part.0) == supplied_pages(before)
    &&& match part.1 {
        Err(TrapView::WitnessIncomplete { page }) => page < before.pages && !supplied_pages(
            before,
        ).contains(page) && (whole.0.accessed matches Some(pages) ==> pages.contains(page)),
        _ => whole.1 == part.1 && mirrors(whole.0, part.0),
    }
}

/// Where an access in bounds starts and ends.
proof fn lemma_span(start: int, len: nat, pages: u32)
    requires
        0 <= start,
        0 < len,
        start + len <= pages * PAGE_SIZE,
    ensures
        0 <= start / PAGE_SIZE as int <= (start + len - 1) / PAGE_SIZE as int,
        (start + len - 1) / (PAGE_SIZE as int) < pages,
{
    assert(start / 65536int <= (start + len - 1) / 65536int);
}

proof fn lemma_touched(whole: MemoryView, part: MemoryView, start: int, len: nat)
    requires
        mirrors(whole, part),
        0 <= start,
        start + len <= whole.bytes.len(),
    ensures
        whole.touched(start, len).1 is Ok,
        shadows(
            part,
            whole.touched(start, len),
            part.touched(start, len),
        ),
        part.touched(start, len).1 is Ok && len > 0 ==> forall|p: u32|
            start / PAGE_SIZE as int <= p <= (start + len - 1) / PAGE_SIZE as int
                ==> #[trigger] supplied_pages(part).contains(p),
        whole.touched(start, len).0 == (MemoryView {
            accessed: whole.touched(start, len).0.accessed,
            ..whole
        }),
        part.touched(start, len).0 == (MemoryView {
            accessed: part.touched(start, len).0.accessed,
            ..part
        }),
{
    if len > 0 {
        lemma_span(start, len, whole.pages);
        lemma_first_missing(
            supplied_pages(part),
            start / PAGE_SIZE as int,
            (start + len - 1) / PAGE_SIZE as int,
        );
    }
}

/// The bytes of pages that were given are the bytes of the whole.
proof fn lemma_same_bytes(whole: MemoryView, part: MemoryView, start: int, len: nat)
    requires
        mirrors(whole, part),
        0 <= start,
        start + len <= whole.bytes.len(),
        len > 0 ==> forall|p: u32|
            start / PAGE_SIZE as int <= p <= (start + len - 1) / PAGE_SIZE as int
                ==> #[trigger] supplied_pages(part).contains(p),
    ensures
        whole.bytes.subrange(start, start + len) == part.bytes.subrange(start, start + len),
{
    assert forall|i: int| start <= i < start + len implies whole.bytes[i] == part.bytes[i] by {
        lemma_span(start, len, whole.pages);
        lemma_span(start, (i - start + 1) as nat, whole.pages);
        lemma_span(i, (start + len - i) as nat, whole.pages);
        let q = i / PAGE_SIZE as int;
        assert(supplied_pages(part).contains(q as u32));
        let at = i - q * PAGE_SIZE;
        assert(0 <= at < PAGE_SIZE);
        assert(page_of(whole.bytes, q)[at] == whole.bytes[i]);
        assert(page_of(part.bytes, q)[at] == part.bytes[i]);
    }
    assert(whole.bytes.subrange(start, start + len) =~= part.bytes.subrange(start, start + len));
}

proof fn lemma_read(whole: MemoryView, part: MemoryView, address: u64, len: nat)
    requires
        mirrors(whole, part),
    ensures
        shadows(part, whole.read(address, len), part.read(address, len)),
{
    if whole.in_bounds(address, len) {
        lemma_touched(whole, part, address as int, len);
        if part.touched(address as int, len).1 is Ok {
            lemma_same_bytes(whole, part, address as int, len);
        }
    }
}

/// What is written shows on the pages it lies on and nowhere else.
proof fn lemma_page_overwritten(a: Seq<u8>, b: Seq<u8>, start: int, data: Seq<u8>, p: int)
    requires
        0 <= start,
        start + data.len() <= a.len(),
        a.len() == b.len(),
        0 <= p,
        p * PAGE_SIZE + PAGE_SIZE <= a.len(),
        page_of(a, p) == page_of(b, p),
    ensures
        page_of(overwritten(a, start, data), p) == page_of(overwritten(b, start, data), p),
{
    let (x, y) = (overwritten(a, start, data), overwritten(b, start, data));
    assert forall|i: int| 0 <= i < PAGE_SIZE implies page_of(x, p)[i] == page_of(y, p)[i] by {
        let at = p * PAGE_SIZE + i;
        assert(page_of(a, p)[i] == a[at] && page_of(b, p)[i] == b[at]);
        assert(page_of(x, p)[i] == x[at] && page_of(y, p)[i] == y[at]);
    }
    assert(page_of(x, p) =~= page_of(y, p));
}

proof fn lemma_page_untouched(a: Seq<u8>, start: int, data: Seq<u8>, p: int)
    requires
        0 <= start,
        0 < data.len(),
        start + data.len() <= a.len(),
        0 <= p,
        p * PAGE_SIZE + PAGE_SIZE <= a.len(),
        p < start / PAGE_SIZE as int || p > (start + data.len() - 1) / PAGE_SIZE as int,
    ensures
        page_of(overwritten(a, start, data), p) == page_of(a, p),
{
    let x = overwritten(a, start, data);
    assert(p * PAGE_SIZE + PAGE_SIZE <= start || start + data.len() <= p * PAGE_SIZE);
    assert(page_of(x, p) =~= page_of(a, p));
}

/// Writing the same to both, where every page written was given.
proof fn lemma_stored(whole: MemoryView, part: MemoryView, start: int, data: Seq<u8>)
    requires
        mirrors(whole, part),
        0 <= start,
        start + data.len() <= whole.bytes.len(),
        data.len() > 0 ==> forall|p: u32|
            start / PAGE_SIZE as int <= p <= (start + data.len() - 1) / PAGE_SIZE as int
                ==> #[trigger] supplied_pages(part).contains(p),
    ensures
        mirrors(whole.stored(start, data), part.stored(start, data)),
        supplied_pages(part.stored(start, data)) == supplied_pages(part),
{
    let (w, p) = (whole.stored(start, data), part.stored(start, data));
    if data.len() == 0 {
        assert(w.bytes =~= whole.bytes);
        assert(p.bytes =~= part.bytes);
    } else {
        lemma_span(start, data.len(), whole.pages);
        let given = supplied_pages(part);
        let (tree, dirty) = (part.backing->tree, part.backing->dirty);
        let after = p.backing->dirty;
        let (first, last) = (
            start / PAGE_SIZE as int,
            (start + data.len() - 1) / PAGE_SIZE as int,
        );
        assert forall|q: u32| #[trigger] given.contains(q) && q < p.pages implies page_of(
            w.bytes,
            q as int,
        ) == page_of(p.bytes, q as int) by {
            lemma_page_overwritten(whole.bytes, part.bytes, start, data, q as int);
        }
        assert forall|q: u32| #[trigger] after.contains(q) implies given.contains(q) && q
            < p.pages by {
            if !dirty.contains(q) {
                assert(pages_between(first, last).contains(q));
            }
        }
        let before = full_tree(whole.bytes, whole.pages, whole.max_pages);
        let now = full_tree(w.bytes, w.pages, w.max_pages);
        let (u, v) = (flushed(tree, dirty, part.bytes), flushed(tree, after, p.bytes));
        lemma_capacity(tree.pages);
        assert forall|i: nat| i < before.leaves.len() && #[trigger] u.supplied(i) implies
            v.leaves.contains_key(u.node_of(i) as usize) && v.leaves[u.node_of(i) as usize]
            == now.leaves[i as int] by {
            let k = u.node_of(i) as usize;
            assert(u.node_agrees(before, 0, k));
            if is_flushed(tree, after, p.bytes, k) {
                assert(after.contains(i as u32));
            } else {
                assert(!is_flushed(tree, dirty, part.bytes, k));
                if i < w.pages && i < tree.pages {
                    assert(!after.contains(i as u32));
                    assert(!pages_between(first, last).contains(i as u32));
                    lemma_page_untouched(whole.bytes, start, data, i as int);
                }
            }
        }
        assert forall|i: nat| i < before.leaves.len() && !#[trigger] u.supplied(i) implies
            now.leaves[i as int] == before.leaves[i as int] by {
            if i < w.pages && i < tree.pages {
                if first <= i <= last {
                    assert(given.contains(i as u32));
                    assert(tree.supplied(i as nat));
                }
                lemma_page_untouched(whole.bytes, start, data, i as int);
            }
        }
        law_writing_supplied_pages_agrees(u, before, v.leaves, now);
        assert(v == (PartialView { leaves: v.leaves, ..u }));
        if given == Set::<u32>::empty() {
            assert(given.contains(first as u32));
        }
    }
}

proof fn lemma_write(whole: MemoryView, part: MemoryView, address: u64, data: Seq<u8>)
    requires
        mirrors(whole, part),
    ensures
        shadows(part, whole.write(address, data), part.write(address, data)),
{
    if whole.in_bounds(address, data.len()) {
        lemma_touched(whole, part, address as int, data.len());
        if part.touched(address as int, data.len()).1 is Ok {
            lemma_stored(
                whole.touched(address as int, data.len()).0,
                part.touched(address as int, data.len()).0,
                address as int,
                data,
            );
        }
    }
}

proof fn lemma_copy(whole: MemoryView, part: MemoryView, dest: u64, src: u64, len: nat)
    requires
        mirrors(whole, part),
    ensures
        shadows(part, whole.copy(dest, src, len), part.copy(dest, src, len)),
{
    if whole.in_bounds(src, len) && whole.in_bounds(dest, len) {
        lemma_touched(whole, part, src as int, len);
        let (w, p) = (whole.touched(src as int, len).0, part.touched(src as int, len).0);
        if part.touched(src as int, len).1 is Ok {
            lemma_same_bytes(whole, part, src as int, len);
            lemma_touched(w, p, dest as int, len);
            if p.touched(dest as int, len).1 is Ok {
                lemma_stored(
                    w.touched(dest as int, len).0,
                    p.touched(dest as int, len).0,
                    dest as int,
                    whole.bytes.subrange(src as int, src + len),
                );
            }
        } else {
            lemma_grown_accesses(w, dest as int, len);
        }
    }
}

/// A touched page stays touched.
proof fn lemma_grown_accesses(m: MemoryView, start: int, len: nat)
    ensures
        m.accessed matches Some(pages) ==> (m.touched(start, len).0.accessed matches Some(more)
            && pages.subset_of(more)),
{
}

proof fn lemma_grow(whole: MemoryView, part: MemoryView, delta: u32)
    requires
        mirrors(whole, part),
    ensures
        whole.grow(delta).1 == part.grow(delta).1,
        mirrors(whole.grow(delta).0, part.grow(delta).0),
        supplied_pages(part.grow(delta).0) == supplied_pages(part),
{
    let (w, p) = (whole.grow(delta).0, part.grow(delta).0);
    if whole.pages + delta <= whole.max_pages {
        let given = supplied_pages(part);
        let (tree, dirty) = (part.backing->tree, part.backing->dirty);
        assert(w.bytes.len() == w.pages * PAGE_SIZE);
        assert forall|q: u32| #[trigger] given.contains(q) && q < p.pages implies page_of(
            w.bytes,
            q as int,
        ) == page_of(p.bytes, q as int) by {
            lemma_page_grown(whole.bytes, w.bytes, whole.pages, w.pages, q as int);
            lemma_page_grown(part.bytes, p.bytes, part.pages, p.pages, q as int);
        }
        let (before, now) = (
            full_tree(whole.bytes, whole.pages, whole.max_pages),
            full_tree(w.bytes, w.pages, w.max_pages),
        );
        assert forall|i: int| 0 <= i < before.leaves.len() implies before.leaves[i]
            == now.leaves[i] by {
            if i < w.pages {
                lemma_page_grown(whole.bytes, w.bytes, whole.pages, w.pages, i);
            }
        }
        assert(before.leaves =~= now.leaves);
        let (u, v) = (flushed(tree, dirty, part.bytes), flushed(tree, dirty, p.bytes));
        assert forall|k: usize| is_flushed(tree, dirty, part.bytes, k) == #[trigger] is_flushed(
            tree,
            dirty,
            p.bytes,
            k,
        ) && (is_flushed(tree, dirty, part.bytes, k) ==> page_of(part.bytes, k - tree.capacity)
            == page_of(p.bytes, k - tree.capacity)) by {
            let q = k - tree.capacity;
            if 0 <= q <= u32::MAX && dirty.contains(q as u32) {
                assert(q < part.pages);
                lemma_page_grown(part.bytes, p.bytes, part.pages, p.pages, q);
            }
        }
        assert(u.leaves =~= v.leaves);
    }
}

/// Growing adds zero pages and leaves the others alone.
proof fn lemma_page_grown(bytes: Seq<u8>, grown: Seq<u8>, pages: u32, more: u32, p: int)
    requires
        bytes.len() == pages * PAGE_SIZE,
        pages <= more,
        grown == bytes + Seq::new(((more - pages) * PAGE_SIZE) as nat, |i: int| 0u8),
        0 <= p < more,
    ensures
        p < pages ==> page_of(grown, p) == page_of(bytes, p),
        p >= pages ==> page_of(grown, p) == zero_page(),
{
    if p < pages {
        assert(page_of(grown, p) =~= page_of(bytes, p));
    } else {
        assert(page_of(grown, p) =~= zero_page());
    }
}

/// Are two machines in the same state, one with the whole memory and one with some pages of it?
///
/// The answer itself is not compared, only its digest, and neither is the count of instructions:
/// no instruction reads either.
pub open spec fn twins(a: MachineView, b: MachineView) -> bool {
    &&& b == (MachineView { memory: b.memory, output: b.output, steps: b.steps, ..a })
    &&& mirrors(a.memory, b.memory)
}

/// How an instruction on a rebuilt machine follows the same on the whole one.
pub open spec fn follows(before: MemoryView, a: Outcome, b: Outcome) -> bool {
    &&& supplied_pages(b.0.memory) == supplied_pages(before)
    &&& match b.1 {
        Err(TrapView::WitnessIncomplete { page }) => page < before.pages && !supplied_pages(
            before,
        ).contains(page) && (a.0.memory.accessed matches Some(pages) ==> pages.contains(page)),
        _ => a.1 == b.1 && twins(a.0, b.0),
    }
}

proof fn lemma_hosted_follows(a: MachineView, b: MachineView, host: HostFunction)
    requires
        twins(a, b),
    ensures
        follows(b.memory, a.hosted(host), b.hosted(host)),
{
    reveal(MachineView::hosted);
    if let (m, Ok((len, address))) = a.popped_range() {
        let n = b.popped_range().0;
        assert(twins(m, n));
        let available = if m.input.len() < len {
            m.input.len()
        } else {
            len
        };
        lemma_write(m.memory, n.memory, address, m.input.take(available as int));
        lemma_read(m.memory, n.memory, address, len);
    }
}

proof fn lemma_called_follows(a: MachineView, b: MachineView, index: u32)
    requires
        twins(a, b),
    ensures
        follows(b.memory, a.called(index), b.called(index)),
{
    reveal(MachineView::called);
    reveal(MachineView::charged);
    reveal(MachineView::entered);
    if index < a.image.host_imports@.len() {
        lemma_hosted_follows(a, b, a.image.host_imports@[index as int]);
    }
}

proof fn lemma_called_indirect_follows(a: MachineView, b: MachineView, index: u32)
    requires
        twins(a, b),
    ensures
        follows(b.memory, a.called_indirect(index), b.called_indirect(index)),
{
    reveal(MachineView::called_indirect);
    let (m, slot) = a.popped_i32();
    let n = b.popped_i32().0;
    assert(twins(m, n));
    if let Ok(slot) = slot {
        if (slot as u32) < m.table.len() {
            if let Some(target) = m.table[(slot as u32) as int] {
                lemma_called_follows(m, n, target);
            }
        }
    }
}

proof fn lemma_branching_follows(a: MachineView, b: MachineView, op: Operator)
    requires
        twins(a, b),
    ensures
        follows(b.memory, a.branching(op), b.branching(op)),
{
    reveal(MachineView::branching);
    reveal(MachineView::branched);
    reveal(MachineView::left);
}

proof fn lemma_plain_follows(
    a: MachineView,
    b: MachineView,
    op: Operator,
    f: Function,
    pc: u32,
    ty: BlockType,
    is_loop: bool,
)
    requires
        twins(a, b),
    ensures
        follows(b.memory, a.block(f, pc, ty, is_loop), b.block(f, pc, ty, is_loop)),
        follows(b.memory, a.branch_if(f, pc, ty), b.branch_if(f, pc, ty)),
        follows(b.memory, a.selected(), b.selected()),
        follows(b.memory, a.variable(op), b.variable(op)),
{
    assert(follows(b.memory, a.block(f, pc, ty, is_loop), b.block(f, pc, ty, is_loop)))
        by {
        reveal(MachineView::block);
    }
    assert(follows(b.memory, a.branch_if(f, pc, ty), b.branch_if(f, pc, ty))) by {
        reveal(MachineView::branch_if);
    }
    assert(follows(b.memory, a.selected(), b.selected())) by {
        reveal(MachineView::selected);
    }
    assert(follows(b.memory, a.variable(op), b.variable(op))) by {
        reveal(MachineView::variable);
    }
}

proof fn lemma_load_follows(a: MachineView, b: MachineView, op: Operator, offset: u64, width: nat)
    requires
        twins(a, b),
    ensures
        follows(b.memory, a.load(op, offset, width), b.load(op, offset, width)),
{
    reveal(MachineView::load);
    if let (m, Ok(address)) = a.popped_address(offset) {
        let n = b.popped_address(offset).0;
        assert(twins(m, n));
        lemma_read(m.memory, n.memory, address, width);
    }
}

proof fn lemma_store_follows(a: MachineView, b: MachineView, offset: u64, kind: Kind, width: nat)
    requires
        twins(a, b),
    ensures
        follows(b.memory, a.store(offset, kind, width), b.store(offset, kind, width)),
{
    reveal(MachineView::store);
    let (rest, v) = popped(a.stack, kind);
    if let Ok(v) = v {
        let (m, n) = (a.with_stack(rest), b.with_stack(rest));
        if let (m, Ok(address)) = m.popped_address(offset) {
            let n = n.popped_address(offset).0;
            assert(twins(m, n));
            lemma_write(
                m.memory,
                n.memory,
                address,
                le_bytes(v.payload_of() as nat, width),
            );
        }
    }
}

proof fn lemma_initialised_follows(a: MachineView, b: MachineView, index: u32)
    requires
        twins(a, b),
    ensures
        follows(b.memory, a.initialised(index), b.initialised(index)),
{
    reveal(MachineView::initialised);
    if let (m, Ok((len, src))) = a.popped_range() {
        let n = b.popped_range().0;
        assert(twins(m, n));
        if let (m, Ok(dest)) = m.popped_i32() {
            let n = n.popped_i32().0;
            assert(twins(m, n));
            if index < m.dropped_data.len() {
                let bytes = if m.dropped_data[index as int] {
                    Seq::empty()
                } else {
                    m.image.data@[index as int].content()
                };
                lemma_write(
                    m.memory,
                    n.memory,
                    (dest as u32) as u64,
                    bytes.subrange(src as int, src + len),
                );
            }
        }
    }
}

proof fn lemma_grow_follows(a: MachineView, b: MachineView)
    requires
        twins(a, b),
    ensures
        follows(b.memory, a.bulk(Operator::MemoryGrow), b.bulk(Operator::MemoryGrow)),
{
    reveal(MachineView::bulk);
    if let (m, Ok(delta)) = a.popped_i32() {
        let n = b.popped_i32().0;
        assert(twins(m, n));
        lemma_grow(m.memory, n.memory, delta as u32);
    }
}

proof fn lemma_fill_follows(a: MachineView, b: MachineView)
    requires
        twins(a, b),
    ensures
        follows(b.memory, a.bulk(Operator::MemoryFill), b.bulk(Operator::MemoryFill)),
{
    reveal(MachineView::bulk);
    if let (m, Ok(len)) = a.popped_i32() {
        let n = b.popped_i32().0;
        if let (m, Ok(byte)) = m.popped_i32() {
            let n = n.popped_i32().0;
            if let (m, Ok(address)) = m.popped_i32() {
                let n = n.popped_i32().0;
                assert(twins(m, n));
                lemma_write(
                    m.memory,
                    n.memory,
                    (address as u32) as u64,
                    Seq::new((len as u32) as nat, |i: int| byte as u8),
                );
            }
        }
    }
}

proof fn lemma_copy_follows(a: MachineView, b: MachineView)
    requires
        twins(a, b),
    ensures
        follows(b.memory, a.bulk(Operator::MemoryCopy), b.bulk(Operator::MemoryCopy)),
{
    reveal(MachineView::bulk);
    if let (m, Ok((len, src))) = a.popped_range() {
        let n = b.popped_range().0;
        if let (m, Ok(dest)) = m.popped_i32() {
            let n = n.popped_i32().0;
            assert(twins(m, n));
            lemma_copy(m.memory, n.memory, (dest as u32) as u64, src, len);
        }
    }
}

proof fn lemma_bulk_follows(a: MachineView, b: MachineView, op: Operator)
    requires
        twins(a, b),
    ensures
        follows(b.memory, a.bulk(op), b.bulk(op)),
{
    match op {
        Operator::MemoryGrow => {
            lemma_grow_follows(a, b);
        },
        Operator::MemoryFill => {
            lemma_fill_follows(a, b);
        },
        Operator::MemoryCopy => {
            lemma_copy_follows(a, b);
        },
        Operator::MemoryInit { data_index } => {
            reveal(MachineView::bulk);
            lemma_initialised_follows(a, b, data_index);
        },
        _ => {
            reveal(MachineView::bulk);
        },
    }
}

proof fn lemma_executed_follows(
    a: MachineView,
    b: MachineView,
    op: Operator,
    f: Function,
    pc: u32,
)
    requires
        twins(a, b),
    ensures
        follows(b.memory, a.executed(op, f, pc), b.executed(op, f, pc)),
{
    reveal(MachineView::executed);
    lemma_branching_follows(a, b, op);
    lemma_bulk_follows(a, b, op);
    lemma_plain_follows(a, b, op, f, pc, BlockType::Empty, false);
    if let Operator::Call { function_index } = op {
        lemma_called_follows(a, b, function_index);
    }
    if let Operator::CallIndirect { type_index } = op {
        lemma_called_indirect_follows(a, b, type_index);
    }
    if let Operator::Block { blockty } = op {
        lemma_plain_follows(a, b, op, f, pc, blockty, false);
    }
    if let Operator::Loop { blockty } = op {
        lemma_plain_follows(a, b, op, f, pc, blockty, true);
    }
    if let Operator::If { blockty } = op {
        lemma_plain_follows(a, b, op, f, pc, blockty, false);
    }
    if let Some((offset, width)) = load_shape(op) {
        lemma_load_follows(a, b, op, offset, width);
    }
    if let Some((offset, kind, width)) = store_shape(op) {
        lemma_store_follows(a, b, offset, kind, width);
    }
}

/// Whatever instruction comes next, a rebuilt machine either reports a page that it was not given
/// and that the instruction does touch, or does exactly what the whole machine does.
pub proof fn law_a_rebuilt_machine_follows(a: MachineView, b: MachineView)
    requires
        twins(a, b),
    ensures
        follows(b.memory, a.stepped(), b.stepped()),
{
    if !a.finished && a.frames.len() > 0 {
        if let Some(position) = a.image.defined(a.top().function) {
            let f = a.image.functions@[position];
            let pc = a.top().pc;
            if pc < f.ops@.len() {
                let op = f.ops@[pc as int];
                let (m, n) = (a.advanced(), b.advanced());
                let (stack, handled) = applied(op, m.stack);
                assert(twins(m, n));
                assert(twins(m.with_stack(stack), n.with_stack(stack)));
                lemma_executed_follows(m.with_stack(stack), n.with_stack(stack), op, f, pc);
            }
        }
    }
}

/// A rebuilt machine has the root of the machine it was taken from.
pub proof fn law_twins_have_one_root(a: MachineView, b: MachineView)
    requires
        twins(a, b),
    ensures
        a.commitment() == b.commitment(),
        a.root() == b.root(),
{
    lemma_same_root(a.memory, b.memory);
}

/// Does a witness describe a state? The pages it carries and its count of instructions are not
/// compared.
pub open spec fn describes(w: WitnessView, a: MachineView) -> bool {
    w == (WitnessView { pages: w.pages, steps: w.steps, ..a.witness(Seq::empty()) })
}

/// Are there few enough entries of everything to be counted?
pub open spec fn countable(
    globals: Seq<Value>,
    stack: Seq<Value>,
    frames: Seq<FrameView>,
    dropped_data: Seq<bool>,
    dropped_elements: Seq<bool>,
) -> bool {
    &&& globals.len() <= u64::MAX
    &&& stack.len() <= u64::MAX
    &&& frames.len() <= u64::MAX
    &&& dropped_data.len() <= u64::MAX
    &&& dropped_elements.len() <= u64::MAX
    &&& forall|i: int|
        0 <= i < frames.len() ==> (#[trigger] frames[i]).locals.len() <= u64::MAX
            && frames[i].labels.len() <= u64::MAX
}

/// The commitment a witness describes is the commitment of the state it was taken from, while
/// the machine runs and once it has finished.
pub proof fn law_a_witness_commits_to_its_state(a: MachineView, pages: Seq<u32>)
    ensures
        a.witness(pages).commitment() == a.commitment(),
{
    assert(a.witness(pages).frames.map_values(|f: FrameView| frame_digest(f))
        =~= a.frame_digests());
}

/// Taking a commitment changes no root.
pub proof fn law_committing_keeps_the_root(a: MachineView)
    ensures
        a.committed().commitment() == a.commitment(),
        a.committed().committed() == a.committed(),
{
    if let BackingView::Witnessed { tree, dirty, .. } = a.memory.backing {
        let once = flushed(tree, dirty, a.memory.bytes);
        let twice = flushed(once, Set::empty(), a.memory.bytes);
        assert(twice.leaves =~= once.leaves);
        assert(twice == once);
    }
    assert(a.committed().frame_digests() =~= a.frame_digests());
}

/// What is hashed for the parts of a frame.
pub open spec fn frame_inputs(f: FrameView) -> Set<Seq<u8>> {
    set![
        values_preimage(f.locals),
        labels_preimage(f.labels.map_values(|l: LabelWitness| label_digest(l))),
    ]
}

/// What is hashed for a commitment and its parts.
pub open spec fn commitment_inputs(
    c: StateCommitment,
    globals: Seq<Value>,
    stack: Seq<Value>,
    frames: Seq<FrameView>,
    dropped_data: Seq<bool>,
    dropped_elements: Seq<bool>,
    pages: u32,
    root: Digest,
) -> Set<Seq<u8>> {
    Set::new(
        |x: Seq<u8>|
            {
                ||| x == c.preimage()
                ||| x == memory_preimage(pages, root)
                ||| x == values_preimage(globals)
                ||| x == values_preimage(stack)
                ||| x == segments_preimage(dropped_data, dropped_elements)
                ||| x == frames_preimage(frames.map_values(|f: FrameView| frame_digest(f)))
                ||| exists|i: int|
                    0 <= i < frames.len() && frame_inputs(#[trigger] frames[i]).contains(x)
            },
    )
}

/// What is hashed to commit to a state.
pub open spec fn state_inputs(a: MachineView) -> Set<Seq<u8>> {
    commitment_inputs(
        a.commitment(),
        a.globals,
        a.stack,
        a.frames,
        a.dropped_data,
        a.dropped_elements,
        a.memory.pages,
        a.memory.tree_root(),
    )
}

/// What is hashed to commit to the state that a witness describes.
pub open spec fn witness_inputs(w: WitnessView) -> Set<Seq<u8>> {
    commitment_inputs(
        w.commitment(),
        w.globals,
        w.operand_stack,
        w.frames,
        w.dropped_data,
        w.dropped_elements,
        w.memory_pages,
        w.memory_root,
    )
}

/// What is hashed for the page tree of a memory.
pub open spec fn memory_inputs(m: MemoryView) -> Set<Seq<u8>> {
    let leaves = full_tree(m.bytes, m.pages, m.max_pages).leaves;
    Set::new(
        |x: Seq<u8>|
            node_inputs(leaves).contains(x) || exists|p: int|
                0 <= p < leaves.len() && x == leaf_preimage(#[trigger] committed_page(m, p)),
    )
}

/// What is hashed to check the pages that a witness carries.
pub open spec fn page_inputs(w: WitnessView) -> Set<Seq<u8>> {
    Set::new(
        |x: Seq<u8>|
            exists|i: int|
                0 <= i < w.pages.len() && proof_inputs(
                    (#[trigger] w.pages[i]).index as nat,
                    w.pages[i].bytes,
                    w.pages[i].path,
                ).contains(x),
    )
}

/// Everything that is hashed for a state and for a witness of one: to commit to either, and to
/// check the pages.
pub open spec fn hashed(a: MachineView, w: WitnessView) -> Set<Seq<u8>> {
    state_inputs(a).union(witness_inputs(w)).union(memory_inputs(a.memory)).union(page_inputs(w))
}

/// Are frames the same, but for where the constructs of their labels end?
pub open spec fn same_but_ends(f: FrameView, g: FrameView) -> bool {
    &&& g == (FrameView { labels: g.labels, ..f })
    &&& f.labels.len() == g.labels.len()
    &&& forall|j: int|
        0 <= j < f.labels.len() ==> g.labels[j] == (LabelWitness {
            end: g.labels[j].end,
            ..#[trigger] f.labels[j]
        })
}

/// Does a witness describe a state, as far as a root tells? What the module fixes is not compared:
/// the ceiling of the memory, and where constructs end.
pub open spec fn describes_as_committed(w: WitnessView, a: MachineView) -> bool {
    &&& w == (WitnessView {
        pages: w.pages,
        steps: w.steps,
        memory_max_pages: w.memory_max_pages,
        frames: w.frames,
        ..a.witness(Seq::empty())
    })
    &&& w.frames.len() == a.frames.len()
    &&& forall|i: int| 0 <= i < a.frames.len() ==> same_but_ends(#[trigger] a.frames[i], w.frames[i])
}

proof fn lemma_frame_binds(f: FrameView, g: FrameView, inputs: Set<Seq<u8>>)
    requires
        frame_inputs(f).subset_of(inputs),
        frame_inputs(g).subset_of(inputs),
        frame_digest(f) == frame_digest(g),
        f.locals.len() <= u64::MAX,
        g.locals.len() <= u64::MAX,
        f.labels.len() <= u64::MAX,
        g.labels.len() <= u64::MAX,
    ensures
        same_but_ends(f, g) || collision_among(inputs),
{
    let (x, y) = (
        f.labels.map_values(|l: LabelWitness| label_digest(l)),
        g.labels.map_values(|l: LabelWitness| label_digest(l)),
    );
    law_values_hash_binds(f.locals, g.locals);
    law_labels_hash_binds(x, y);
    assert(frame_inputs(f).contains(values_preimage(f.locals)));
    assert(frame_inputs(g).contains(values_preimage(g.locals)));
    assert(frame_inputs(f).contains(labels_preimage(x)));
    assert(frame_inputs(g).contains(labels_preimage(y)));
    if !collision_among(inputs) {
        assert forall|j: int| 0 <= j < f.labels.len() implies g.labels[j] == (LabelWitness {
            end: g.labels[j].end,
            ..#[trigger] f.labels[j]
        }) by {
            assert(x[j] == label_digest(f.labels[j]));
            assert(y[j] == label_digest(g.labels[j]));
        }
    }
}

/// Where labels fit, and have a target that can be told from others, it tells where they end.
proof fn lemma_ends(image: Image, f: FrameView, g: FrameView)
    requires
        frame_placed(image, f),
        frame_fits(image, g),
        forall|p: int| 0 <= p < image.functions@.len() ==> is_short(#[trigger] image.functions@[p]),
        same_but_ends(f, g),
    ensures
        f == g,
{
    assert forall|j: int| 0 <= j < f.labels.len() implies f.labels[j] == g.labels[j] by {
        let position = image.defined(f.function)->0;
        assert(label_placed_in(image, f.function, f.labels[j]));
        assert(label_fits_in(image, g.function, g.labels[j]));
        assert(is_short(image.functions@[position]));
        assert(label_fits(image.functions@[position], g.labels[j]));
    }
    assert(f.labels =~= g.labels);
}

/// A witness whose root is the root of a state describes that state, or what is hashed for the
/// two collides.
///
/// A root covers neither where the `end` of a construct is nor the ceiling of the memory, which
/// the module fixes: where those are as the module has them, the witness describes the state of
/// an execution whole. Functions too long for a branch target to point past are left out of that.
pub proof fn law_the_root_binds_a_witness(a: MachineView, w: WitnessView)
    requires
        a.root() == w.commitment().root_hash(),
        countable(a.globals, a.stack, a.frames, a.dropped_data, a.dropped_elements),
        countable(w.globals, w.operand_stack, w.frames, w.dropped_data, w.dropped_elements),
    ensures
        describes_as_committed(w, a) || collision_among(hashed(a, w)),
        describes_as_committed(w, a) && running(a) && fits_module(a.image, w) && (forall|p: int|
            0 <= p < a.image.functions@.len() ==> is_short(#[trigger] a.image.functions@[p]))
            ==> describes(w, a),
{
    let (c, d) = (a.commitment(), w.commitment());
    let inputs = hashed(a, w);
    let y = w.frames.map_values(|f: FrameView| frame_digest(f));
    law_root_binds_the_state(c, d);
    assert(state_inputs(a).contains(c.preimage()));
    assert(witness_inputs(w).contains(d.preimage()));
    if !collision_among(inputs) {
        assert(state_inputs(a).contains(memory_preimage(a.memory.pages, a.memory.tree_root())));
        assert(witness_inputs(w).contains(memory_preimage(w.memory_pages, w.memory_root)));
        assert(state_inputs(a).contains(values_preimage(a.globals)));
        assert(witness_inputs(w).contains(values_preimage(w.globals)));
        assert(state_inputs(a).contains(values_preimage(a.stack)));
        assert(witness_inputs(w).contains(values_preimage(w.operand_stack)));
        assert(state_inputs(a).contains(segments_preimage(a.dropped_data, a.dropped_elements)));
        assert(witness_inputs(w).contains(segments_preimage(w.dropped_data, w.dropped_elements)));
        assert(state_inputs(a).contains(frames_preimage(a.frame_digests())));
        assert(witness_inputs(w).contains(frames_preimage(y)));
        law_memory_hash_binds(
            a.memory.pages,
            a.memory.tree_root(),
            w.memory_pages,
            w.memory_root,
        );
        law_values_hash_binds(a.globals, w.globals);
        law_values_hash_binds(a.stack, w.operand_stack);
        law_segments_hash_binds(
            a.dropped_data,
            a.dropped_elements,
            w.dropped_data,
            w.dropped_elements,
        );
        law_frames_hash_binds(a.frame_digests(), y);
        assert(a.frames.len() == a.frame_digests().len());
        assert(w.frames.len() == y.len());
        assert forall|i: int| 0 <= i < a.frames.len() implies same_but_ends(
            #[trigger] a.frames[i],
            w.frames[i],
        ) by {
            assert(a.frame_digests()[i] == frame_digest(a.frames[i]));
            assert(y[i] == frame_digest(w.frames[i]));
            assert(frame_inputs(a.frames[i]).subset_of(state_inputs(a)));
            assert(frame_inputs(w.frames[i]).subset_of(witness_inputs(w)));
            lemma_frame_binds(a.frames[i], w.frames[i], inputs);
        }
    }
    if describes_as_committed(w, a) && running(a) && fits_module(a.image, w) && (forall|p: int|
        0 <= p < a.image.functions@.len() ==> is_short(#[trigger] a.image.functions@[p])) {
        assert forall|i: int| 0 <= i < a.frames.len() implies a.frames[i] == w.frames[i] by {
            assert(same_but_ends(a.frames[i], w.frames[i]));
            assert(frame_placed(a.image, a.frames[i]));
            assert(frame_fits(a.image, w.frames[i]));
            lemma_ends(a.image, a.frames[i], w.frames[i]);
        }
        assert(a.frames =~= w.frames);
    }
}

/// What a memory being rebuilt has of the whole one.
spec fn partly(whole: MemoryView, s: Rebuilding) -> bool {
    let tree = full_tree(whole.bytes, whole.pages, whole.max_pages);
    &&& s.tree.pages == tree_pages(whole.max_pages)
    &&& s.tree.capacity == capacity_for(s.tree.pages)
    &&& s.tree.agrees(tree)
    &&& s.bytes.len() == whole.bytes.len()
    &&& forall|p: u32| #[trigger]
        s.resident.contains(p) ==> p < s.tree.pages && s.tree.supplied(p as nat) && (p < whole.pages
            ==> page_of(whole.bytes, p as int) == page_of(s.bytes, p as int))
    &&& s.resident == Set::<u32>::empty() ==> s.tree == PartialView::unknown(s.tree.pages)
}

/// The page a whole memory's tree commits to at an index.
pub open spec fn committed_page(whole: MemoryView, p: int) -> Seq<u8> {
    if p < whole.pages && p < tree_pages(whole.max_pages) {
        page_of(whole.bytes, p)
    } else {
        zero_page()
    }
}

/// One more page that is the committed one, with the path that leads to it.
proof fn lemma_page_rebuilt(whole: MemoryView, s: Rebuilding, index: u32, page: Seq<u8>)
    requires
        whole.bytes.len() == whole.pages * PAGE_SIZE,
        partly(whole, s),
        index < s.tree.pages,
        page == committed_page(whole, index as int),
    ensures
        ({
            let path = full_tree(whole.bytes, whole.pages, whole.max_pages).path(index as nat);
            partly(
                whole,
                Rebuilding {
                    tree: s.tree.with_supplied(index as nat, page, path),
                    bytes: if index < whole.pages {
                        overwritten(s.bytes, index * PAGE_SIZE, page)
                    } else {
                        s.bytes
                    },
                    resident: s.resident.insert(index),
                },
            )
        }),
{
    let tree = full_tree(whole.bytes, whole.pages, whole.max_pages);
    let path = tree.path(index as nat);
    let bytes = if index < whole.pages {
        overwritten(s.bytes, index * PAGE_SIZE, page)
    } else {
        s.bytes
    };
    let after = Rebuilding {
        tree: s.tree.with_supplied(index as nat, page, path),
        bytes,
        resident: s.resident.insert(index),
    };
    lemma_capacity(s.tree.pages);
    lemma_full_tree(whole.bytes, whole.pages, whole.max_pages);
    assert(tree.leaves[index as int] == leaf_hash(page));
    law_supplying_a_page_agrees(s.tree, tree, index as nat, page);
    law_supplied_pages_stay_supplied(s.tree, index as nat, page, path);
    if index < whole.pages {
        assert((index + 1) * PAGE_SIZE <= whole.pages * PAGE_SIZE);
        assert(page.len() == PAGE_SIZE);
    }
    assert forall|p: u32| #[trigger] after.resident.contains(p) implies p < after.tree.pages
        && after.tree.supplied(p as nat) && (p < whole.pages ==> page_of(whole.bytes, p as int)
        == page_of(after.bytes, p as int)) by {
        if p == index {
            if p < whole.pages {
                assert(page_of(bytes, p as int) =~= page);
            }
        } else {
            assert(s.resident.contains(p));
            assert(s.tree.supplied(p as nat));
            if p < whole.pages && index < whole.pages {
                assert((index * PAGE_SIZE) / PAGE_SIZE as int == index);
                assert((index * PAGE_SIZE + PAGE_SIZE - 1) / PAGE_SIZE as int == index);
                lemma_page_untouched(s.bytes, index * PAGE_SIZE, page, p as int);
            }
        }
    }
    assert(after.resident.contains(index));
}

/// What is rebuilt from accepted pages is what the whole memory holds, or what is hashed for
/// it collides with what is hashed to check them.
proof fn lemma_rebuilding(a: MachineView, w: WitnessView, n: nat)
    requires
        running(a),
        describes(w, a),
        addressable(a.memory.max_pages),
        n <= w.pages.len(),
        rebuilding(w, n) is Ok,
    ensures
        collision_among(hashed(a, w)) || partly(a.memory, rebuilding(w, n)->Ok_0),
        n > 0 ==> rebuilding(w, n)->Ok_0.resident.contains(w.pages[n - 1].index),
    decreases n,
{
    let whole = a.memory;
    let tree = full_tree(whole.bytes, whole.pages, whole.max_pages);
    lemma_full_tree(whole.bytes, whole.pages, whole.max_pages);
    if n == 0 {
        lemma_addressable(whole.max_pages);
        lemma_capacity_fits(tree.pages);
        law_nothing_known_agrees(tree);
    } else {
        lemma_rebuilding(a, w, (n - 1) as nat);
        let s = rebuilding(w, (n - 1) as nat)->Ok_0;
        let p = w.pages[n - 1];
        if !collision_among(hashed(a, w)) {
            lemma_capacity(tree.pages);
            let page = committed_page(whole, p.index as int);
            assert(tree.leaves[p.index as int] == leaf_hash(page));
            law_verified_page_is_the_committed_page(
                tree,
                p.index as nat,
                page,
                p.bytes,
                p.path,
            );
            let few = node_inputs(tree.leaves).insert(leaf_preimage(page)).union(
                proof_inputs(p.index as nat, p.bytes, p.path),
            );
            assert(few.subset_of(hashed(a, w))) by {
                assert(memory_inputs(whole).contains(leaf_preimage(page)));
                assert(node_inputs(tree.leaves).subset_of(memory_inputs(whole)));
                assert(proof_inputs(p.index as nat, p.bytes, p.path).subset_of(page_inputs(w)));
            }
            if collision_among(few) {
                lemma_collision_grows(few, hashed(a, w));
            }
            lemma_page_rebuilt(whole, s, p.index, page);
        }
    }
}

/// A machine that a witness of a state rebuilds is in that state, whichever pages it carries,
/// or what is hashed for the two collides.
pub proof fn law_a_restored_machine_is_a_twin(a: MachineView, w: WitnessView)
    requires
        running(a),
        describes(w, a),
        addressable(a.memory.max_pages),
    ensures
        restored(a.image, w, a.input, a.limits) matches Ok(b) ==> twins(a, b)
            || collision_among(hashed(a, w)),
{
    if let Ok(b) = restored(a.image, w, a.input, a.limits) {
        lemma_rebuilding(a, w, w.pages.len());
        let s = rebuilding(w, w.pages.len())->Ok_0;
        if !collision_among(hashed(a, w)) {
            let tree = b.memory.backing->tree;
            let now = flushed(tree, Set::empty(), b.memory.bytes);
            assert(now.leaves =~= tree.leaves);
            assert(now == tree);
            assert(b.memory.resident == Some(s.resident));
            assert(mirrors(a.memory, b.memory));
        }
    }
}

/// Is this a page of a memory, with its path?
spec fn is_page_of(memory: MemoryView, p: PageView) -> bool {
    &&& memory.backing is Full
    &&& p.index < memory.pages
    &&& p.index < tree_pages(memory.max_pages)
    &&& p.bytes == page_of(memory.bytes, p.index as int)
    &&& p.path == full_tree(memory.bytes, memory.pages, memory.max_pages).path(p.index as nat)
}

proof fn lemma_carried(memory: MemoryView, pages: Seq<u32>)
    ensures
        forall|i: int|
            0 <= i < carried(memory, pages).len() ==> is_page_of(
                memory,
                #[trigger] carried(memory, pages)[i],
            ),
        forall|p: u32|
            memory.backing is Full && p < memory.pages && p < tree_pages(memory.max_pages)
                && #[trigger] pages.contains(p) ==> exists|i: int|
                0 <= i < carried(memory, pages).len() && (#[trigger] carried(memory, pages)[i]).index
                    == p,
    decreases pages.len(),
{
    if pages.len() > 0 {
        lemma_carried(memory, pages.drop_last());
        let (before, now) = (carried(memory, pages.drop_last()), carried(memory, pages));
        assert forall|i: int| 0 <= i < now.len() implies is_page_of(memory, #[trigger] now[i]) by {
            if i < before.len() {
                assert(now[i] == before[i]);
            }
        }
        assert forall|p: u32|
            memory.backing is Full && p < memory.pages && p < tree_pages(memory.max_pages)
                && #[trigger] pages.contains(p) implies exists|i: int|
            0 <= i < now.len() && (#[trigger] now[i]).index == p by {
            if p == pages.last() {
                assert(now[now.len() - 1].index == p);
            } else {
                let k = choose|k: int| 0 <= k < pages.len() && pages[k] == p;
                assert(pages.drop_last()[k] == p);
                assert(pages.drop_last().contains(p));
                let i = choose|i: int| 0 <= i < before.len() && (#[trigger] before[i]).index == p;
                assert(now[i].index == p);
            }
        }
    }
}

/// The pages of an honest witness are all accepted.
proof fn lemma_honest_rebuilding(a: MachineView, pages: Seq<u32>, n: nat)
    requires
        running(a),
        addressable(a.memory.max_pages),
        n <= carried(a.memory, pages).len(),
    ensures
        rebuilding(a.witness(pages), n) matches Ok(s) && partly(a.memory, s) && forall|i: int|
            0 <= i < n ==> s.resident.contains(
                (#[trigger] a.witness(pages).pages[i]).index,
            ),
    decreases n,
{
    let whole = a.memory;
    let w = a.witness(pages);
    let tree = full_tree(whole.bytes, whole.pages, whole.max_pages);
    lemma_full_tree(whole.bytes, whole.pages, whole.max_pages);
    if n == 0 {
        lemma_addressable(whole.max_pages);
        lemma_capacity_fits(tree.pages);
        law_nothing_known_agrees(tree);
    } else {
        lemma_honest_rebuilding(a, pages, (n - 1) as nat);
        lemma_carried(whole, pages);
        let s = rebuilding(w, (n - 1) as nat)->Ok_0;
        let p = w.pages[n - 1];
        assert(is_page_of(whole, carried(whole, pages)[n - 1]));
        lemma_capacity(tree.pages);
        assert((p.index + 1) * PAGE_SIZE <= whole.pages * PAGE_SIZE);
        assert(p.bytes.len() == PAGE_SIZE);
        assert(tree.leaves[p.index as int] == leaf_hash(p.bytes));
        law_proof_verifies(tree, p.index as nat, p.bytes);
        lemma_page_rebuilt(whole, s, p.index, p.bytes);
        let after = rebuilding(w, n)->Ok_0;
        assert forall|i: int| 0 <= i < n implies after.resident.contains(
            (#[trigger] w.pages[i]).index,
        ) by {
            if i < n - 1 {
                assert(s.resident.contains(w.pages[i].index));
            }
        }
    }
}

/// A witness proves what it carries: whatever pages are asked for, it has the root of the state it
/// was taken from, which taking it leaves as it was, and each page it carries verifies.
pub proof fn law_a_witness_proves_its_pages(a: MachineView, pages: Seq<u32>)
    requires
        a.memory.bytes.len() == a.memory.pages * PAGE_SIZE,
    ensures
        a.witness(pages).commitment().root_hash() == a.root(),
        a.committed().root() == a.root(),
        a.committed().steps == a.steps,
        a.committed().meter == a.meter,
        forall|i: int|
            0 <= i < a.witness(pages).pages.len() ==> accepts(
                a.witness(pages).memory_root,
                (#[trigger] a.witness(pages).pages[i]).index as nat,
                a.witness(pages).pages[i].bytes,
                a.witness(pages).pages[i].path,
            ),
{
    law_a_witness_commits_to_its_state(a, pages);
    law_committing_keeps_the_root(a);
    let w = a.witness(pages);
    let whole = a.memory;
    let tree = full_tree(whole.bytes, whole.pages, whole.max_pages);
    lemma_full_tree(whole.bytes, whole.pages, whole.max_pages);
    lemma_carried(whole, pages);
    assert forall|i: int| 0 <= i < w.pages.len() implies accepts(
        w.memory_root,
        (#[trigger] w.pages[i]).index as nat,
        w.pages[i].bytes,
        w.pages[i].path,
    ) by {
        let p = w.pages[i];
        assert(is_page_of(whole, carried(whole, pages)[i]));
        lemma_capacity(tree.pages);
        assert((p.index + 1) * PAGE_SIZE <= whole.pages * PAGE_SIZE);
        assert(p.bytes.len() == PAGE_SIZE);
        assert(tree.leaves[p.index as int] == leaf_hash(p.bytes));
        law_proof_verifies(tree, p.index as nat, p.bytes);
    }
}

/// A witness taken for the next instruction is always accepted, and carries every page that the
/// instruction touches: the machine it rebuilds does exactly what the machine it was taken from
/// does.
///
/// An instruction that touches a page above the ceiling is left out, as there may be in a memory
/// that starts with more pages than its ceiling allows.
pub proof fn law_an_honest_witness_suffices(a: MachineView, pages: Seq<u32>)
    requires
        running(a),
        touches_committed(a),
        addressable(a.memory.max_pages),
        lists(pages, a.next_pages()),
    ensures
        restored(a.image, a.witness(pages), a.input, a.limits) matches Ok(b) && twins(a, b)
            && b.stepped().1 == a.stepped().1 && twins(a.stepped().0, b.stepped().0) && !(
        b.stepped().1 is Err && b.stepped().1->Err_0 is WitnessIncomplete),
{
    let w = a.witness(pages);
    let n = w.pages.len();
    lemma_honest_rebuilding(a, pages, n);
    let s = rebuilding(w, n)->Ok_0;
    let tree = full_tree(a.memory.bytes, a.memory.pages, a.memory.max_pages);
    lemma_capacity(tree.pages);
    if n > 0 {
        assert(s.resident.contains(w.pages[0].index));
        law_partial_root_is_the_root(s.tree, tree, w.pages[0].index as nat);
    }
    let b = restored(a.image, w, a.input, a.limits)->Ok_0;
    let now = flushed(s.tree, Set::empty(), b.memory.bytes);
    assert(now.leaves =~= s.tree.leaves);
    assert(now == s.tree);
    assert(mirrors(a.memory, b.memory));
    law_a_rebuilt_machine_follows(a, b);
    let noting = a.noting();
    assert(twins(noting, b));
    law_a_rebuilt_machine_follows(noting, b);
    if let Err(TrapView::WitnessIncomplete { page }) = b.stepped().1 {
        law_a_step_is_one_instruction(noting);
        assert(a.next_pages().contains(page));
        assert(pages.to_set().contains(page));
        assert(pages.contains(page));
        lemma_carried(a.memory, pages);
        let i = choose|i: int|
            0 <= i < carried(a.memory, pages).len() && (#[trigger] carried(
                a.memory,
                pages,
            )[i]).index == page;
        assert(s.resident.contains(w.pages[i].index));
    }
}

/// A state commits to each of its parts: the memory by its size and root, the globals, the stack
/// and the frames, the dropped segments, the answer, its fuel, and the instruction that comes next,
/// which is none once there is no frame.
pub proof fn law_a_state_commits_to_its_parts(a: MachineView, i: int)
    ensures
        ({
            let c = a.commitment();
            &&& c.memory == memory_hash(a.memory.pages, a.memory.tree_root())
            &&& c.globals == values_hash(a.globals)
            &&& c.operand_stack == values_hash(a.stack)
            &&& c.segments == segments_hash(a.dropped_data, a.dropped_elements)
            &&& c.output == a.output_digest
            &&& a.meter.consumed <= u64::MAX ==> c.fuel.0 == a.meter.consumed
            &&& a.frames.len() == 0 ==> c.program_counter.function == 0
                && c.program_counter.instruction == 0
            &&& a.frames.len() > 0 ==> c.program_counter.function == a.frames.last().function
                && c.program_counter.instruction == a.frames.last().pc
            &&& c.call_stack == frames_hash(a.frame_digests())
            &&& a.frame_digests().len() == a.frames.len()
            &&& 0 <= i < a.frames.len() ==> {
                let (f, d) = (a.frames[i], a.frame_digests()[i]);
                &&& d.function == f.function
                &&& d.instruction == f.pc
                &&& d.stack_base == f.stack_base
                &&& d.arity == f.arity
                &&& d.locals == values_hash(f.locals)
            }
        }),
{
}

proof fn lemma_pages_asked_for(memory: MemoryView, pages: Seq<u32>, k: int)
    ensures
        forall|i: int|
            0 <= i < carried(memory, pages).len() ==> {
                let p = #[trigger] carried(memory, pages)[i];
                &&& pages.contains(p.index)
                &&& p.index < memory.pages
                &&& p.bytes == memory.bytes.subrange(p.index * 65536, p.index * 65536 + 65536)
            },
        0 <= k < pages.len() && memory.backing is Full && pages[k] < memory.pages && pages[k]
            < memory.max_pages ==> exists|i: int|
            0 <= i < carried(memory, pages).len() && (#[trigger] carried(memory, pages)[i]).index
                == pages[k],
    decreases pages.len(),
{
    if pages.len() > 0 {
        let before = pages.drop_last();
        let n = pages.len() - 1;
        lemma_pages_asked_for(memory, before, k);
        let (all, some) = (carried(memory, pages), carried(memory, before));
        assert forall|i: int| 0 <= i < all.len() implies {
            let p = #[trigger] all[i];
            &&& pages.contains(p.index)
            &&& p.index < memory.pages
            &&& p.bytes == memory.bytes.subrange(p.index * 65536, p.index * 65536 + 65536)
        } by {
            if i < some.len() {
                assert(all[i] == some[i]);
                assert(before.contains(some[i].index));
                let j = choose|j: int| 0 <= j < before.len() && before[j] == some[i].index;
                assert(pages[j] == some[i].index);
            } else {
                assert(pages[n] == all[i].index);
            }
        }
        if 0 <= k < pages.len() && memory.backing is Full && pages[k] < memory.pages && pages[k]
            < memory.max_pages {
            if k < n {
                assert(before[k] == pages[k]);
                let i = choose|i: int|
                    0 <= i < some.len() && (#[trigger] some[i]).index == before[k];
                assert(all[i] == some[i]);
            } else {
                assert(all[some.len() as int].index == pages[k]);
            }
        }
    }
}

/// A witness says what the state is: its stack, frames, globals, dropped segments, fuel and count
/// of instructions, the digest of the answer, and how large the memory is and what its root. It
/// carries the pages that were asked for, and no others, with their bytes.
pub proof fn law_a_witness_says_what_the_state_is(a: MachineView, pages: Seq<u32>, k: int)
    ensures
        ({
            let w = a.witness(pages);
            &&& w.operand_stack == a.stack
            &&& w.frames == a.frames
            &&& w.globals == a.globals
            &&& w.dropped_data == a.dropped_data
            &&& w.dropped_elements == a.dropped_elements
            &&& a.meter.consumed <= u64::MAX ==> w.fuel.0 == a.meter.consumed
            &&& w.steps == a.steps
            &&& w.output == a.output_digest
            &&& w.memory_pages == a.memory.pages
            &&& w.memory_max_pages == a.memory.max_pages
            &&& w.memory_root == a.memory.tree_root()
            &&& forall|i: int|
                0 <= i < w.pages.len() ==> {
                    let p = #[trigger] w.pages[i];
                    &&& pages.contains(p.index)
                    &&& p.index < a.memory.pages
                    &&& p.bytes == a.memory.bytes.subrange(
                        p.index * 65536,
                        p.index * 65536 + 65536,
                    )
                }
            &&& 0 <= k < pages.len() && a.memory.backing is Full && pages[k] < a.memory.pages
                && pages[k] < a.memory.max_pages ==> exists|i: int|
                0 <= i < w.pages.len() && (#[trigger] w.pages[i]).index == pages[k]
        }),
{
    lemma_pages_asked_for(a.memory, pages, k);
    let (w, all) = (a.witness(pages), carried(a.memory, pages));
    assert forall|i: int| 0 <= i < w.pages.len() implies {
        let p = #[trigger] w.pages[i];
        &&& pages.contains(p.index)
        &&& p.index < a.memory.pages
        &&& p.bytes == a.memory.bytes.subrange(p.index * 65536, p.index * 65536 + 65536)
    } by {
        assert(w.pages[i] == all[i]);
    }
    if 0 <= k < pages.len() && a.memory.backing is Full && pages[k] < a.memory.pages && pages[k]
        < a.memory.max_pages {
        let i = choose|i: int| 0 <= i < all.len() && (#[trigger] all[i]).index == pages[k];
        assert(w.pages[i].index == pages[k]);
    }
}

/// Is a page of a witness to blame for an error: for its size, or for its proof?
pub open spec fn blames_page(p: PageView, e: WitnessError) -> bool {
    ||| e == (WitnessError::BadPageSize { page: p.index, got: p.bytes.len() as usize })
        && p.bytes.len() != 65536
    ||| e == (WitnessError::BadPageProof { page: p.index }) && p.bytes.len() == 65536
}

proof fn lemma_page_blame(w: WitnessView, n: nat)
    requires
        n <= w.pages.len(),
    ensures
        rebuilding(w, n) matches Err(e) ==> exists|i: int|
            0 <= i < n && blames_page(#[trigger] w.pages[i], e),
        rebuilding(w, n) is Ok ==> forall|i: int|
            0 <= i < n ==> accepts(
                w.memory_root,
                (#[trigger] w.pages[i]).index as nat,
                w.pages[i].bytes,
                w.pages[i].path,
            ),
    decreases n,
{
    if n > 0 {
        lemma_page_blame(w, (n - 1) as nat);
        if rebuilding(w, (n - 1) as nat) is Ok {
            if let Err(e) = rebuilding(w, n) {
                assert(blames_page(w.pages[n - 1], e));
            }
        }
    }
}

/// A witness is refused for a page that is at fault, for having no frame, for limits that allow no
/// schedule or segments that do not fit, or because its pages do not give its root; and a machine
/// is rebuilt only from pages that verify.
pub proof fn law_a_witness_is_refused_for_a_reason(
    image: Image,
    w: WitnessView,
    input: Seq<u8>,
    limits: Limits,
)
    ensures
        match restored(image, w, input, limits) {
            Ok(_) => forall|i: int|
                0 <= i < w.pages.len() ==> accepts(
                    w.memory_root,
                    (#[trigger] w.pages[i]).index as nat,
                    w.pages[i].bytes,
                    w.pages[i].path,
                ),
            Err(e) => {
                ||| e is NoFrames && w.frames.len() == 0
                ||| e is RootNotReconstructed && w.pages.len() > 0
                ||| e is BadLimits && (limits.snapshot_interval_log2 > 63 || table_of(image) is Err)
                ||| exists|i: int| 0 <= i < w.pages.len() && blames_page(#[trigger] w.pages[i], e)
            },
        },
{
    lemma_page_blame(w, w.pages.len());
}

/// A machine that is rebuilt has the root of its witness.
pub proof fn law_a_rebuilt_machine_has_the_root_of_its_witness(
    image: Image,
    w: WitnessView,
    input: Seq<u8>,
    limits: Limits,
)
    ensures
        restored(image, w, input, limits) matches Ok(m) ==> m.memory.tree_root() == w.memory_root
            && m.root() == w.commitment().root_hash(),
{
    if let Ok(m) = restored(image, w, input, limits) {
        let s = rebuilding(w, w.pages.len())->Ok_0;
        let now = flushed(s.tree, Set::empty(), m.memory.bytes);
        assert(now.leaves =~= s.tree.leaves);
        assert(now == s.tree);
        if w.pages.len() == 0 {
            assert(s.tree.known(1) is None);
        }
        assert(m.frame_digests() =~= w.frames.map_values(|f: FrameView| frame_digest(f)));
    }
}

/// A machine that is rebuilt is in the state that its witness says, with the limits and the input
/// it is given, and goes on from there. A witness with no frame is refused.
pub proof fn law_a_rebuilt_machine_is_what_its_witness_says(
    image: Image,
    w: WitnessView,
    input: Seq<u8>,
    limits: Limits,
)
    ensures
        w.frames.len() == 0 ==> restored(image, w, input, limits) == Err::<MachineView, _>(
            WitnessError::NoFrames,
        ),
        restored(image, w, input, limits) matches Ok(m) ==> {
            &&& m.image == image
            &&& m.limits == limits
            &&& m.input == input
            &&& m.stack == w.operand_stack
            &&& m.frames == w.frames
            &&& m.globals == w.globals
            &&& m.dropped_data == w.dropped_data
            &&& m.dropped_elements == w.dropped_elements
            &&& m.meter.consumed == w.fuel.0
            &&& m.meter.limit == limits.fuel
            &&& m.meter.interval_log2 == limits.snapshot_interval_log2
            &&& m.steps == w.steps
            &&& m.output_digest == w.output
            &&& m.memory.pages == w.memory_pages
            &&& m.memory.max_pages == w.memory_max_pages
            &&& !m.finished
        },
{
}

} // verus!
