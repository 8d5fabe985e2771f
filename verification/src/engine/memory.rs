//! Linear memory: the bytes a program sees, and the commitment a verifier checks.
use crate::engine::image::MemorySpec;
use crate::engine::numeric::{Trap, TrapView};
use crate::hash::{Digest, collision_among, is_collision};
use crate::merkle::{
    PAGE_SIZE, PageTree, PartialTree, PartialView, TreeView, capacity_for,
    law_root_binds_every_page, leaf_hash, leaf_preimage, lemma_capacity, max_tree_pages,
    node_inputs, root_of, zero_page,
};
use crate::state::{hash_memory, memory_hash};
use std::collections::BTreeSet;
use vstd::laws_cmp::obeys_cmp;
use vstd::prelude::*;
use vstd::std_specs::btree::increasing_seq;
use vstd::std_specs::cmp::OrdSpec;
use vstd::std_specs::iter::IteratorSpec;

verus! {

/// A set of pages.
#[derive(Debug)]
pub(crate) struct PageSet {
    pages: BTreeSet<u32>,
}

impl View for PageSet {
    type V = Set<u32>;

    closed spec fn view(&self) -> Set<u32> {
        self.pages@
    }
}

proof fn lemma_increasing(pages: Seq<&u32>)
    requires
        increasing_seq(pages),
    ensures
        forall|i: int, j: int| 0 <= i < j < pages.len() ==> *pages[i] < *pages[j],
{
    broadcast use vstd::std_specs::btree::group_btree_axioms;
    broadcast use vstd::laws_cmp::group_laws_cmp;

    assert(obeys_cmp::<u32>());
    assert(obeys_cmp::<&u32>());
    assert forall|i: int, j: int| 0 <= i < j < pages.len() implies *pages[i] < *pages[j] by {
        assert(OrdSpec::cmp_spec(&pages[i], &pages[j]) is Less);
    }
}

impl PageSet {
    pub(crate) fn new() -> (r: Self)
        ensures
            r@ == Set::<u32>::empty(),
    {
        PageSet { pages: BTreeSet::new() }
    }

    pub(crate) fn contains(&self, page: u32) -> (r: bool)
        ensures
            r == self@.contains(page),
    {
        broadcast use vstd::std_specs::btree::group_btree_axioms;

        self.pages.contains(&page)
    }

    pub(crate) fn insert(&mut self, page: u32)
        ensures
            final(self)@ == old(self)@.insert(page),
    {
        broadcast use vstd::std_specs::btree::group_btree_axioms;

        self.pages.insert(page);
    }

    /// Insert every page of a range.
    pub(crate) fn insert_range(&mut self, first: u32, last: u32)
        requires
            first <= last,
        ensures
            final(self)@ == old(self)@.union(pages_between(first as int, last as int)),
    {
        let mut p: u32 = first;
        assert(self@.union(pages_between(first as int, first - 1)) =~= self@);
        loop
            invariant
                first <= p <= last,
                self@ == old(self)@.union(pages_between(first as int, p - 1)),
            decreases last - p,
        {
            self.insert(p);
            assert(self@ =~= old(self)@.union(pages_between(first as int, p as int)));
            if p == last {
                return;
            }
            p = p + 1;
        }
    }

    /// The pages in increasing order.
    pub(crate) fn to_vec(&self) -> (r: Vec<u32>)
        ensures
            r@.to_set() == self@,
            forall|i: int, j: int| 0 <= i < j < r@.len() ==> r@[i] < r@[j],
    {
        broadcast use vstd::std_specs::btree::group_btree_axioms;

        let ghost listed = self.pages.iter().remaining();
        let mut r: Vec<u32> = Vec::new();
        for page in pages: self.pages.iter()
            invariant
                r@ == pages.seq().unref().take(pages.index() as int),
                pages.seq() == listed,
                pages.seq().unref().to_set() == self@,
        {
            r.push(*page);
            assert(r@ =~= pages.seq().unref().take(pages.index() + 1));
        }
        proof {
            assert(r@ =~= listed.unref());
            lemma_increasing(listed);
        }
        r
    }

    pub(crate) fn duplicate(&self) -> (r: Self)
        ensures
            r@ == self@,
    {
        PageSet { pages: self.pages.clone() }
    }
}

/// The pages from one to another.
pub open spec fn pages_between(first: int, last: int) -> Set<u32> {
    Set::new(|p: u32| first <= p <= last)
}

/// The bytes of one page.
pub open spec fn page_of(bytes: Seq<u8>, page: int) -> Seq<u8> {
    bytes.subrange(page * PAGE_SIZE, page * PAGE_SIZE + PAGE_SIZE)
}

/// Can this many pages be addressed and committed to on this machine?
pub open spec fn addressable(pages: u32) -> bool {
    pages * PAGE_SIZE <= isize::MAX
}

/// Can this many pages be addressed and committed to on this machine?
#[must_use]
pub fn is_addressable(pages: u32) -> (r: bool)
    ensures
        r == addressable(pages),
{
    assert(pages * PAGE_SIZE <= u32::MAX * PAGE_SIZE) by (nonlinear_arith)
        requires
            pages <= u32::MAX,
    ;
    (pages as u64) * (PAGE_SIZE as u64) <= isize::MAX as u64
}

/// How a memory's commitment is backed.
pub enum BackingView {
    /// By the whole memory.
    Full,
    /// By what a witness revealed.
    Witnessed {
        /// The revealed part of the page tree.
        tree: PartialView,
        /// Pages written since the last commitment.
        dirty: Set<u32>,
        /// The last root that could be derived.
        last_root: Digest,
    },
}

/// A linear memory.
pub struct MemoryView {
    /// The bytes.
    pub bytes: Seq<u8>,
    /// Current size in pages.
    pub pages: u32,
    /// Declared ceiling in pages.
    pub max_pages: u32,
    /// How the commitment is backed.
    pub backing: BackingView,
    /// When present, the only pages that were supplied.
    pub resident: Option<Set<u32>>,
    /// When present, the pages touched so far.
    pub accessed: Option<Set<u32>>,
}

/// The first page of a range that a set lacks.
pub open spec fn first_missing(pages: Set<u32>, first: int, last: int) -> Option<u32>
    decreases last - first + 1,
{
    if first > last {
        None
    } else if !pages.contains(first as u32) {
        Some(first as u32)
    } else {
        first_missing(pages, first + 1, last)
    }
}

/// Put bytes in the place of others.
pub open spec fn overwritten(bytes: Seq<u8>, start: int, data: Seq<u8>) -> Seq<u8> {
    bytes.take(start) + data + bytes.skip(start + data.len())
}

/// The tree over a whole memory: every page below the ceiling, zero past the current end.
pub open spec fn full_tree(bytes: Seq<u8>, pages: u32, max_pages: u32) -> TreeView {
    let count = tree_pages(max_pages);
    TreeView {
        pages: count,
        leaves: Seq::new(
            capacity_for(count),
            |p: int|
                if p < pages && p < count {
                    leaf_hash(page_of(bytes, p))
                } else {
                    leaf_hash(zero_page())
                },
        ),
    }
}

/// How many pages the tree over a memory with this ceiling has.
pub open spec fn tree_pages(max_pages: u32) -> nat {
    if max_pages == 0 {
        1
    } else {
        max_pages as nat
    }
}

/// Write dirty pages into the revealed part of a tree: those that exist and were supplied.
pub open spec fn flushed(tree: PartialView, dirty: Set<u32>, bytes: Seq<u8>) -> PartialView {
    PartialView {
        leaves: Map::new(
            |k: usize| tree.leaves.contains_key(k) || is_flushed(tree, dirty, bytes, k),
            |k: usize|
                if is_flushed(tree, dirty, bytes, k) {
                    leaf_hash(page_of(bytes, k - tree.capacity))
                } else {
                    tree.leaves[k]
                },
        ),
        ..tree
    }
}

/// Is this the node of a dirty page that can be written?
pub open spec fn is_flushed(tree: PartialView, dirty: Set<u32>, bytes: Seq<u8>, k: usize) -> bool {
    let page = k - tree.capacity;
    &&& 0 <= page < tree.pages
    &&& page <= u32::MAX
    &&& dirty.contains(page as u32)
    &&& (page + 1) * PAGE_SIZE <= bytes.len()
    &&& tree.path.contains(k)
}

impl MemoryView {
    /// A fresh memory.
    pub open spec fn fresh(declared: MemorySpec) -> MemoryView {
        MemoryView {
            bytes: Seq::new((declared.initial_pages * PAGE_SIZE) as nat, |i: int| 0u8),
            pages: declared.initial_pages,
            max_pages: declared.maximum_pages,
            backing: BackingView::Full,
            resident: None,
            accessed: None,
        }
    }

    /// Is an access in bounds? Addresses never wrap.
    pub open spec fn in_bounds(self, address: u64, len: nat) -> bool {
        address + len <= self.bytes.len()
    }

    /// Check that every page an access spans was supplied, and record that it was touched.
    pub open spec fn touched(self, start: int, len: nat) -> (MemoryView, Result<(), TrapView>) {
        let (first, last) = (start / PAGE_SIZE as int, (start + len - 1) / PAGE_SIZE as int);
        let missing = match self.resident {
            Some(resident) => first_missing(resident, first, last),
            None => None,
        };
        if len == 0 {
            (self, Ok(()))
        } else if missing is Some {
            (self, Err(TrapView::WitnessIncomplete { page: missing->0 }))
        } else {
            (
                MemoryView {
                    accessed: match self.accessed {
                        Some(pages) => Some(pages.union(pages_between(first, last))),
                        None => None,
                    },
                    ..self
                },
                Ok(()),
            )
        }
    }

    /// Read bytes.
    pub open spec fn read(self, address: u64, len: nat) -> (
        MemoryView,
        Result<Seq<u8>, TrapView>,
    ) {
        if !self.in_bounds(address, len) {
            (self, Err(TrapView::MemoryOutOfBounds))
        } else {
            match self.touched(address as int, len) {
                (m, Ok(_)) => (m, Ok(self.bytes.subrange(address as int, address + len))),
                (m, Err(t)) => (m, Err(t)),
            }
        }
    }

    /// Replace bytes, and remember which pages were written.
    pub open spec fn stored(self, start: int, data: Seq<u8>) -> MemoryView {
        let (first, last) = (
            start / PAGE_SIZE as int,
            (start + data.len() - 1) / PAGE_SIZE as int,
        );
        MemoryView {
            bytes: overwritten(self.bytes, start, data),
            backing: match self.backing {
                BackingView::Full => BackingView::Full,
                BackingView::Witnessed { tree, dirty, last_root } => BackingView::Witnessed {
                    tree,
                    dirty: if data.len() == 0 {
                        dirty
                    } else {
                        dirty.union(pages_between(first, last))
                    },
                    last_root,
                },
            },
            ..self
        }
    }

    /// Write bytes.
    pub open spec fn write(self, address: u64, data: Seq<u8>) -> (
        MemoryView,
        Result<(), TrapView>,
    ) {
        if !self.in_bounds(address, data.len()) {
            (self, Err(TrapView::MemoryOutOfBounds))
        } else {
            match self.touched(address as int, data.len()) {
                (m, Ok(_)) => (m.stored(address as int, data), Ok(())),
                (m, Err(t)) => (m, Err(t)),
            }
        }
    }

    /// Fill a range with one byte.
    pub open spec fn fill(self, address: u64, len: nat, byte: u8) -> (
        MemoryView,
        Result<(), TrapView>,
    ) {
        self.write(address, Seq::new(len, |i: int| byte))
    }

    /// Copy within memory. The ranges may overlap.
    pub open spec fn copy(self, dest: u64, src: u64, len: nat) -> (
        MemoryView,
        Result<(), TrapView>,
    ) {
        if !self.in_bounds(src, len) || !self.in_bounds(dest, len) {
            (self, Err(TrapView::MemoryOutOfBounds))
        } else {
            match self.touched(src as int, len) {
                (m, Err(t)) => (m, Err(t)),
                (m, Ok(_)) => match m.touched(dest as int, len) {
                    (m, Err(t)) => (m, Err(t)),
                    (m, Ok(_)) => (
                        m.stored(dest as int, self.bytes.subrange(src as int, src + len)),
                        Ok(()),
                    ),
                },
            }
        }
    }

    /// Grow by some pages of zeros, giving the previous size, or `-1` if that does not fit.
    ///
    /// Failure depends only on the ceiling of the memory, never on the host.
    pub open spec fn grow(self, delta: u32) -> (MemoryView, i32) {
        if self.pages + delta > self.max_pages {
            (self, (-1) as i32)
        } else {
            (
                MemoryView {
                    bytes: self.bytes + Seq::new((delta * PAGE_SIZE) as nat, |i: int| 0u8),
                    pages: (self.pages + delta) as u32,
                    ..self
                },
                self.pages as i32,
            )
        }
    }

    /// The root of the page tree.
    pub open spec fn tree_root(self) -> Digest {
        match self.backing {
            BackingView::Full => root_of(
                full_tree(self.bytes, self.pages, self.max_pages).leaves,
            ),
            BackingView::Witnessed { tree, dirty, last_root } => match flushed(
                tree,
                dirty,
                self.bytes,
            ).root() {
                Some(root) => root,
                None => last_root,
            },
        }
    }

    /// The commitment to the memory.
    pub open spec fn commitment(self) -> Digest {
        memory_hash(self.pages, self.tree_root())
    }

    /// The memory once its pending writes are part of the tree.
    pub open spec fn committed(self) -> MemoryView {
        MemoryView {
            backing: match self.backing {
                BackingView::Full => BackingView::Full,
                BackingView::Witnessed { tree, dirty, last_root } => BackingView::Witnessed {
                    tree: flushed(tree, dirty, self.bytes),
                    dirty: Set::empty(),
                    last_root: self.tree_root(),
                },
            },
            ..self
        }
    }
}

/// How a memory's commitment is backed.
///
/// Ordinary execution holds the whole page tree. A machine rebuilt from a witness holds only the
/// pages that were supplied and the sibling hashes their proofs revealed.
#[derive(Debug)]
pub(crate) enum Backing {
    /// The whole memory is present.
    Full(PageTree),
    /// Reconstructed from proofs for adjudication.
    Witnessed {
        /// What the proofs revealed.
        tree: PartialTree,
        /// The last root the reconstruction could derive.
        last_root: Digest,
    },
}

/// Linear memory.
#[derive(Debug)]
pub(crate) struct Memory {
    bytes: Vec<u8>,
    pages: u32,
    max_pages: u32,
    pub(crate) backing: Backing,
    /// Pages written since the last commitment. A snapshot rehashes only these.
    pub(crate) dirty: PageSet,
    /// When present, only these pages were supplied by a witness.
    pub(crate) resident: Option<PageSet>,
    /// When present, every page touched is recorded.
    pub(crate) accessed: Option<PageSet>,
}

impl View for Memory {
    type V = MemoryView;

    closed spec fn view(&self) -> MemoryView {
        MemoryView {
            bytes: self.bytes@,
            pages: self.pages,
            max_pages: self.max_pages,
            backing: match self.backing {
                Backing::Full(_) => BackingView::Full,
                Backing::Witnessed { tree, last_root } => BackingView::Witnessed {
                    tree: tree@,
                    dirty: self.dirty@,
                    last_root,
                },
            },
            resident: match self.resident {
                Some(p) => Some(p@),
                None => None,
            },
            accessed: match self.accessed {
                Some(p) => Some(p@),
                None => None,
            },
        }
    }
}

/// The leaves of a whole memory's tree hold its pages, except the dirty ones.
spec fn tree_current(
    tree: TreeView,
    bytes: Seq<u8>,
    pages: u32,
    max_pages: u32,
    dirty: Set<u32>,
) -> bool {
    let full = full_tree(bytes, pages, max_pages);
    &&& tree.pages == full.pages
    &&& tree.leaves.len() == full.leaves.len()
    &&& forall|p: int|
        0 <= p < tree.leaves.len() && !(p < pages && p < tree.pages && dirty.contains(p as u32))
            ==> #[trigger] tree.leaves[p] == full.leaves[p]
}

impl Memory {
    pub(crate) closed spec fn wf(&self) -> bool {
        &&& self.bytes@.len() == self.pages * PAGE_SIZE
        &&& addressable(self.pages)
        &&& addressable(self.max_pages)
        &&& match self.backing {
            Backing::Full(tree) => tree.wf() && tree_current(
                tree@,
                self.bytes@,
                self.pages,
                self.max_pages,
                self.dirty@,
            ),
            Backing::Witnessed { tree, .. } => tree.wf(),
        }
    }

    /// A well-formed memory holds as many bytes as its pages do.
    pub(crate) proof fn lemma_wf(&self)
        requires
            self.wf(),
        ensures
            self@.bytes.len() == self@.pages * PAGE_SIZE,
            addressable(self@.pages),
            addressable(self@.max_pages),
    {
    }

    /// Current size in pages.
    pub(crate) fn size(&self) -> (r: u32)
        ensures
            r == self@.pages,
    {
        self.pages
    }

    /// The most pages it may reach.
    pub(crate) fn limit(&self) -> (r: u32)
        ensures
            r == self@.max_pages,
    {
        self.max_pages
    }

    pub(crate) fn new(declared: MemorySpec) -> (r: Self)
        requires
            addressable(declared.initial_pages),
            addressable(declared.maximum_pages),
        ensures
            r.wf(),
            r@ == MemoryView::fresh(declared),
    {
        let pages: u32 = declared.initial_pages;
        let ceiling: u32 = if declared.maximum_pages == 0 {
            1
        } else {
            declared.maximum_pages
        };
        proof {
            lemma_addressable(declared.maximum_pages);
            lemma_addressable(1);
        }
        let bytes: Vec<u8> = vec![0u8; pages as usize * PAGE_SIZE];
        let tree = PageTree::new(ceiling as usize);
        let r = Memory {
            bytes,
            pages,
            max_pages: declared.maximum_pages,
            backing: Backing::Full(tree),
            dirty: PageSet::new(),
            resident: None,
            accessed: None,
        };
        proof {
            assert(r.bytes@ =~= MemoryView::fresh(declared).bytes);
            let full = full_tree(r.bytes@, pages, declared.maximum_pages);
            assert forall|p: int| 0 <= p < tree@.leaves.len() implies #[trigger] tree@.leaves[p]
                == full.leaves[p] by {
                if p < pages {
                    lemma_page_in(r.bytes@, pages, p);
                    assert(page_of(r.bytes@, p) =~= zero_page());
                }
            }
        }
        r
    }

    /// The start of an access, or a trap.
    fn range(&self, address: u64, len: usize) -> (r: Result<usize, Trap>)
        requires
            self.wf(),
        ensures
            match r {
                Ok(start) => start == address && self@.in_bounds(address, len as nat),
                Err(t) => t@ == TrapView::MemoryOutOfBounds && !self@.in_bounds(
                    address,
                    len as nat,
                ),
            },
    {
        let end: u64 = match address.checked_add(len as u64) {
            Some(end) => end,
            None => return Err(Trap::MemoryOutOfBounds),
        };
        if end > self.bytes.len() as u64 {
            return Err(Trap::MemoryOutOfBounds);
        }
        Ok(address as usize)
    }

    /// Check that every page an access spans was supplied, and record that it was touched.
    fn touch(&mut self, start: usize, len: usize) -> (r: Result<(), Trap>)
        requires
            old(self).wf(),
            start + len <= old(self).bytes@.len(),
        ensures
            final(self).wf(),
            final(self)@ == old(self)@.touched(start as int, len as nat).0,
            match (r, old(self)@.touched(start as int, len as nat).1) {
                (Ok(_), Ok(_)) => true,
                (Err(t), Err(u)) => t@ == u,
                _ => false,
            },
    {
        if len == 0 {
            return Ok(());
        }
        if self.resident.is_none() && self.accessed.is_none() {
            return Ok(());
        }
        proof {
            lemma_page_bound(start as int, self.pages);
            lemma_page_bound(start + len - 1, self.pages);
            lemma_page_order(start as int, start + len - 1);
        }
        let first: u32 = (start / PAGE_SIZE) as u32;
        let last: u32 = ((start + (len - 1)) / PAGE_SIZE) as u32;
        if let Some(resident) = &self.resident {
            let mut page: u32 = first;
            loop
                invariant
                    first <= page <= last,
                    first_missing(resident@, page as int, last as int) == first_missing(
                        resident@,
                        first as int,
                        last as int,
                    ),
                    self@.resident == Some(resident@),
                    *self == *old(self),
                    old(self).wf(),
                    len > 0,
                    first == start as int / PAGE_SIZE as int,
                    last == (start + len - 1) / PAGE_SIZE as int,
                ensures
                    first_missing(resident@, first as int, last as int) is None,
                decreases last - page,
            {
                if !resident.contains(page) {
                    return Err(Trap::WitnessIncomplete { page });
                }
                if page == last {
                    assert(first_missing(resident@, last + 1, last as int) is None);
                    break;
                }
                page = page + 1;
            }
        }
        if let Some(accessed) = &mut self.accessed {
            accessed.insert_range(first, last);
        }
        Ok(())
    }
}

/// An addressable size has a page tree.
pub proof fn lemma_addressable(pages: u32)
    requires
        addressable(pages),
    ensures
        pages <= max_tree_pages(),
        tree_pages(pages) <= max_tree_pages(),
        pages * PAGE_SIZE <= usize::MAX,
{
    assert(isize::MAX == 0x7fff_ffff || isize::MAX == 0x7fff_ffff_ffff_ffff);
}

/// A byte below a size lies on a page below it.
proof fn lemma_page_bound(at: int, pages: u32)
    requires
        0 <= at < pages * PAGE_SIZE,
    ensures
        0 <= at / PAGE_SIZE as int,
        at / (PAGE_SIZE as int) < pages,
{
}

proof fn lemma_page_order(a: int, b: int)
    requires
        0 <= a <= b,
    ensures
        a / PAGE_SIZE as int <= b / PAGE_SIZE as int,
{
}

/// A page below a size lies within its bytes.
proof fn lemma_page_in(bytes: Seq<u8>, pages: u32, p: int)
    requires
        bytes.len() == pages * PAGE_SIZE,
        0 <= p < pages,
    ensures
        0 <= p * PAGE_SIZE,
        p * PAGE_SIZE + PAGE_SIZE <= bytes.len(),
        page_of(bytes, p).len() == PAGE_SIZE,
{
}

/// Writing leaves the other pages alone.
proof fn lemma_other_pages(bytes: Seq<u8>, start: int, data: Seq<u8>, pages: u32, p: int)
    requires
        bytes.len() == pages * PAGE_SIZE,
        0 <= start,
        start + data.len() <= bytes.len(),
        data.len() > 0,
        0 <= p < pages,
        !(start / PAGE_SIZE as int <= p <= (start + data.len() - 1) / PAGE_SIZE as int),
    ensures
        page_of(overwritten(bytes, start, data), p) == page_of(bytes, p),
{
    let after = overwritten(bytes, start, data);
    lemma_page_in(bytes, pages, p);
    assert(after.len() == bytes.len());
    assert forall|k: int| 0 <= k < PAGE_SIZE implies page_of(after, p)[k] == page_of(
        bytes,
        p,
    )[k] by {
        let at = p * PAGE_SIZE + k;
        assert(page_of(after, p)[k] == after[at]);
        assert(page_of(bytes, p)[k] == bytes[at]);
        if p < start / PAGE_SIZE as int {
            assert(at < start);
        } else {
            assert(at >= start + data.len());
        }
    }
    assert(page_of(after, p) =~= page_of(bytes, p));
}

impl Memory {
    /// Read bytes.
    pub(crate) fn read(&mut self, address: u64, len: usize) -> (r: Result<Vec<u8>, Trap>)
        requires
            old(self).wf(),
        ensures
            final(self).wf(),
            final(self)@ == old(self)@.read(address, len as nat).0,
            match (r, old(self)@.read(address, len as nat).1) {
                (Ok(b), Ok(c)) => b@ == c,
                (Err(t), Err(u)) => t@ == u,
                _ => false,
            },
    {
        let start: usize = match self.range(address, len) {
            Ok(start) => start,
            Err(t) => return Err(t),
        };
        match self.touch(start, len) {
            Ok(_) => {},
            Err(t) => return Err(t),
        }
        let part = vstd::slice::slice_subrange(self.bytes.as_slice(), start, start + len);
        Ok(vstd::slice::slice_to_vec(part))
    }

    /// Replace bytes and mark their pages dirty.
    fn store(&mut self, start: usize, data: &[u8])
        requires
            old(self).wf(),
            start + data@.len() <= old(self).bytes@.len(),
        ensures
            final(self).wf(),
            final(self)@ == old(self)@.stored(start as int, data@),
    {
        let len: usize = data.len();
        let ghost before = self.bytes@;
        if len == 0 {
            assert(overwritten(before, start as int, data@) =~= before);
            return;
        }
        let mut i: usize = 0;
        assert(self.bytes@ =~= overwritten(before, start as int, data@.take(0)));
        while i < len
            invariant
                i <= len == data@.len(),
                start + len <= before.len() == self.bytes@.len(),
                before.len() <= usize::MAX,
                self.bytes@ == overwritten(before, start as int, data@.take(i as int)),
                self.pages == old(self).pages,
                self.max_pages == old(self).max_pages,
                self.backing == old(self).backing,
                self.dirty == old(self).dirty,
                self.resident == old(self).resident,
                self.accessed == old(self).accessed,
            decreases len - i,
        {
            self.bytes.set(start + i, data[i]);
            assert(self.bytes@ =~= overwritten(before, start as int, data@.take(i + 1)));
            i = i + 1;
        }
        assert(data@.take(i as int) =~= data@);
        proof {
            lemma_page_bound(start as int, self.pages);
            lemma_page_bound(start + len - 1, self.pages);
            lemma_page_order(start as int, start + len - 1);
        }
        let first: u32 = (start / PAGE_SIZE) as u32;
        let last: u32 = ((start + (len - 1)) / PAGE_SIZE) as u32;
        let ghost marked = self.dirty@;
        self.dirty.insert_range(first, last);
        proof {
            if self.backing is Full {
                let t = self.backing->Full_0@;
                let full = full_tree(before, self.pages, self.max_pages);
                let now = full_tree(self.bytes@, self.pages, self.max_pages);
                assert forall|p: int|
                    0 <= p < t.leaves.len() && !(p < self.pages && p < t.pages
                        && self.dirty@.contains(p as u32)) implies #[trigger] t.leaves[p] == now.leaves[p] by {
                    assert(t.leaves[p] == full.leaves[p]);
                    if p < self.pages && p < tree_pages(self.max_pages) {
                        assert(!pages_between(first as int, last as int).contains(p as u32));
                        lemma_other_pages(before, start as int, data@, self.pages, p);
                    }
                }
            }
        }
    }

    /// Write bytes.
    pub(crate) fn write(&mut self, address: u64, data: &[u8]) -> (r: Result<(), Trap>)
        requires
            old(self).wf(),
        ensures
            final(self).wf(),
            final(self)@ == old(self)@.write(address, data@).0,
            match (r, old(self)@.write(address, data@).1) {
                (Ok(_), Ok(_)) => true,
                (Err(t), Err(u)) => t@ == u,
                _ => false,
            },
    {
        let start: usize = match self.range(address, data.len()) {
            Ok(start) => start,
            Err(t) => return Err(t),
        };
        match self.touch(start, data.len()) {
            Ok(_) => {},
            Err(t) => return Err(t),
        }
        self.store(start, data);
        Ok(())
    }

    /// Fill a range with one byte.
    pub(crate) fn fill(&mut self, address: u64, len: usize, byte: u8) -> (r: Result<(), Trap>)
        requires
            old(self).wf(),
        ensures
            final(self).wf(),
            final(self)@ == old(self)@.fill(address, len as nat, byte).0,
            match (r, old(self)@.fill(address, len as nat, byte).1) {
                (Ok(_), Ok(_)) => true,
                (Err(t), Err(u)) => t@ == u,
                _ => false,
            },
    {
        assert(Seq::new(len as nat, |i: int| byte).len() == len);
        let start: usize = match self.range(address, len) {
            Ok(start) => start,
            Err(t) => return Err(t),
        };
        match self.touch(start, len) {
            Ok(_) => {},
            Err(t) => return Err(t),
        }
        let data: Vec<u8> = vec![byte; len];
        assert(data@ =~= Seq::new(len as nat, |i: int| byte));
        self.store(start, data.as_slice());
        Ok(())
    }

    /// Copy within memory. Ranges may overlap.
    pub(crate) fn copy(&mut self, dest: u64, src: u64, len: usize) -> (r: Result<(), Trap>)
        requires
            old(self).wf(),
        ensures
            final(self).wf(),
            final(self)@ == old(self)@.copy(dest, src, len as nat).0,
            match (r, old(self)@.copy(dest, src, len as nat).1) {
                (Ok(_), Ok(_)) => true,
                (Err(t), Err(u)) => t@ == u,
                _ => false,
            },
    {
        let from: usize = match self.range(src, len) {
            Ok(start) => start,
            Err(t) => return Err(t),
        };
        let to: usize = match self.range(dest, len) {
            Ok(start) => start,
            Err(t) => return Err(t),
        };
        match self.touch(from, len) {
            Ok(_) => {},
            Err(t) => return Err(t),
        }
        match self.touch(to, len) {
            Ok(_) => {},
            Err(t) => return Err(t),
        }
        let part = vstd::slice::slice_subrange(self.bytes.as_slice(), from, from + len);
        let data: Vec<u8> = vstd::slice::slice_to_vec(part);
        self.store(to, data.as_slice());
        Ok(())
    }

    /// The contents of one page, for witness capture.
    pub(crate) fn page(&self, index: u32) -> (r: Option<Vec<u8>>)
        requires
            self.wf(),
        ensures
            r is Some <==> index < self@.pages,
            r matches Some(b) ==> b@ == page_of(self@.bytes, index as int),
    {
        if index >= self.pages {
            return None;
        }
        proof {
            lemma_page_in(self.bytes@, self.pages, index as int);
            lemma_addressable(self.pages);
        }
        let start: usize = index as usize * PAGE_SIZE;
        let part = vstd::slice::slice_subrange(self.bytes.as_slice(), start, start + PAGE_SIZE);
        Some(vstd::slice::slice_to_vec(part))
    }

    /// Grow by `delta` pages, returning the previous size, or `-1` if it does not fit.
    pub(crate) fn grow(&mut self, delta: u32) -> (r: i32)
        requires
            old(self).wf(),
        ensures
            final(self).wf(),
            final(self)@ == old(self)@.grow(delta).0,
            r == old(self)@.grow(delta).1,
    {
        let new_pages: u32 = match self.pages.checked_add(delta) {
            Some(n) => n,
            None => return -1,
        };
        if new_pages > self.max_pages {
            return -1;
        }
        let previous: u32 = self.pages;
        let ghost before = self.bytes@;
        proof {
            lemma_addressable(self.max_pages);
            assert(new_pages * PAGE_SIZE <= self.max_pages * PAGE_SIZE);
        }
        self.bytes.resize(new_pages as usize * PAGE_SIZE, 0u8);
        self.pages = new_pages;
        proof {
            let zeros = Seq::new((delta * PAGE_SIZE) as nat, |i: int| 0u8);
            let n = before.len() as int;
            assert forall|k: int| 0 <= k < self.bytes@.len() implies self.bytes@[k] == (before
                + zeros)[k] by {
                if k < n {
                    assert(self.bytes@.subrange(0, n)[k] == self.bytes@[k]);
                }
            }
            assert(self.bytes@ =~= before + zeros);
            if self.backing is Full {
                let t = self.backing->Full_0@;
                let full = full_tree(before, previous, self.max_pages);
                let now = full_tree(self.bytes@, self.pages, self.max_pages);
                assert forall|p: int|
                    0 <= p < t.leaves.len() && !(p < self.pages && p < t.pages
                        && self.dirty@.contains(p as u32)) implies #[trigger] t.leaves[p] == now.leaves[p] by {
                    assert(t.leaves[p] == full.leaves[p]);
                    if p < previous {
                        lemma_page_in(before, previous, p);
                        assert(page_of(before, p) =~= page_of(self.bytes@, p));
                    } else if p < self.pages {
                        lemma_page_in(self.bytes@, self.pages, p);
                        assert(p * PAGE_SIZE >= n);
                        assert(page_of(self.bytes@, p) =~= zero_page());
                    }
                }
            }
        }
        previous as i32
    }
}

/// Write dirty pages into a whole tree.
fn flush_full(tree: &mut PageTree, bytes: &Vec<u8>, dirty: &Vec<u32>)
    requires
        old(tree).wf(),
    ensures
        final(tree).wf(),
        final(tree)@.pages == old(tree)@.pages,
        final(tree)@.leaves.len() == old(tree)@.leaves.len(),
        forall|p: int|
            0 <= p < final(tree)@.leaves.len() ==> #[trigger] final(tree)@.leaves[p] == (if p
                < old(tree)@.pages && p <= u32::MAX && dirty@.contains(p as u32) && (p + 1)
                * PAGE_SIZE <= bytes@.len() {
                leaf_hash(page_of(bytes@, p))
            } else {
                old(tree)@.leaves[p]
            }),
{
    let mut i: usize = 0;
    proof {
        tree.lemma_wf();
    }
    while i < dirty.len()
        invariant
            tree.wf(),
            i <= dirty@.len(),
            tree@.pages == old(tree)@.pages,
            tree@.pages <= tree@.leaves.len(),
            tree@.leaves.len() == old(tree)@.leaves.len(),
            forall|p: int|
                0 <= p < tree@.leaves.len() ==> #[trigger] tree@.leaves[p] == (if p
                    < old(tree)@.pages && p <= u32::MAX && dirty@.take(i as int).contains(
                    p as u32,
                ) && (p + 1) * PAGE_SIZE <= bytes@.len() {
                    leaf_hash(page_of(bytes@, p))
                } else {
                    old(tree)@.leaves[p]
                }),
        decreases dirty@.len() - i,
    {
        let page: u32 = dirty[i];
        let ghost before = tree@;
        if (page as u64 + 1) * 65_536u64 <= bytes.len() as u64 {
            let start: usize = page as usize * PAGE_SIZE;
            let part = vstd::slice::slice_subrange(bytes.as_slice(), start, start + PAGE_SIZE);
            assert(part@ == page_of(bytes@, page as int));
            let _ = tree.set_page(page as usize, part);
        }
        proof {
            let t = dirty@.take(i + 1);
            assert(t =~= dirty@.take(i as int).push(page));
            assert forall|p: int| 0 <= p < tree@.leaves.len() implies #[trigger] tree@.leaves[p]
                == (if p < old(tree)@.pages && p <= u32::MAX && t.contains(p as u32) && (p + 1)
                * PAGE_SIZE <= bytes@.len() {
                leaf_hash(page_of(bytes@, p))
            } else {
                old(tree)@.leaves[p]
            }) by {
                assert(before.leaves.len() == tree@.leaves.len());
                if p <= u32::MAX {
                    lemma_contains_push(dirty@.take(i as int), page, p as u32);
                }
            }
        }
        i = i + 1;
    }
    assert(dirty@.take(i as int) =~= dirty@);
}

proof fn lemma_contains_push(s: Seq<u32>, x: u32, y: u32)
    ensures
        s.push(x).contains(y) <==> s.contains(y) || x == y,
{
    let t = s.push(x);
    if s.contains(y) {
        let k = choose|k: int| 0 <= k < s.len() && s[k] == y;
        assert(t[k] == y);
    }
    if x == y {
        assert(t[s.len() as int] == y);
    }
    if t.contains(y) && x != y {
        let k = choose|k: int| 0 <= k < t.len() && t[k] == y;
        assert(s[k] == y);
    }
}

/// Write dirty pages into a partial tree.
fn flush_partial(tree: &mut PartialTree, bytes: &Vec<u8>, dirty: &Vec<u32>)
    requires
        old(tree).wf(),
    ensures
        final(tree).wf(),
        final(tree)@ == flushed(old(tree)@, dirty@.to_set(), bytes@),
{
    let mut i: usize = 0;
    let ghost start_tree = tree@;
    proof {
        tree.lemma_wf();
        let none = dirty@.take(0).to_set();
        assert(flushed(tree@, none, bytes@).leaves =~= tree@.leaves);
    }
    while i < dirty.len()
        invariant
            tree.wf(),
            i <= dirty@.len(),
            2 * start_tree.capacity <= usize::MAX,
            start_tree.pages <= start_tree.capacity,
            tree@ == flushed(start_tree, dirty@.take(i as int).to_set(), bytes@),
        decreases dirty@.len() - i,
    {
        let page: u32 = dirty[i];
        let ghost before = tree@;
        let ghost t = dirty@.take(i as int);
        let ghost u = dirty@.take(i + 1);
        proof {
            assert(u =~= t.push(page));
        }
        if (page as u64 + 1) * 65_536u64 <= bytes.len() as u64 {
            let at: usize = page as usize * PAGE_SIZE;
            let part = vstd::slice::slice_subrange(bytes.as_slice(), at, at + PAGE_SIZE);
            assert(part@ == page_of(bytes@, page as int));
            let _ = tree.set_page(page as usize, part);
        }
        proof {
            let now = flushed(start_tree, u.to_set(), bytes@);
            assert forall|k: usize|
                is_flushed(start_tree, u.to_set(), bytes@, k) <==> is_flushed(
                    start_tree,
                    t.to_set(),
                    bytes@,
                    k,
                ) || (k == start_tree.capacity + page && page < start_tree.pages && (page + 1)
                    * PAGE_SIZE <= bytes@.len() && start_tree.path.contains(k)) by {
                let p = k - start_tree.capacity;
                if 0 <= p <= u32::MAX {
                    lemma_contains_push(t, page, p as u32);
                }
            }
            assert(tree@.leaves =~= now.leaves);
        }
        i = i + 1;
    }
    assert(dirty@.take(i as int) =~= dirty@);
}

impl Memory {
    /// No write is pending.
    pub(crate) closed spec fn settled(&self) -> bool {
        self.dirty@ == Set::<u32>::empty()
    }

    /// Bring the page tree up to date, and commit to the memory.
    pub(crate) fn commit(&mut self) -> (r: Digest)
        requires
            old(self).wf(),
        ensures
            final(self).wf(),
            final(self).settled(),
            final(self)@ == old(self)@.committed(),
            r == old(self)@.commitment(),
    {
        let dirty: Vec<u32> = self.dirty.to_vec();
        let ghost before = *self;
        self.dirty = PageSet::new();
        match &mut self.backing {
            Backing::Full(tree) => {
                flush_full(tree, &self.bytes, &dirty);
                let root: Digest = tree.root();
                proof {
                    let full = full_tree(before.bytes@, before.pages, before.max_pages);
                    let t = tree@;
                    assert forall|p: int| 0 <= p < t.leaves.len() implies #[trigger] t.leaves[p]
                        == full.leaves[p] by {
                        if p < before.pages && p < t.pages && before.dirty@.contains(p as u32) {
                            lemma_page_in(before.bytes@, before.pages, p);
                            assert(dirty@.contains(p as u32));
                        } else {
                            if p < t.pages && p <= u32::MAX && dirty@.contains(p as u32) {
                                assert(before.dirty@.contains(p as u32));
                            }
                        }
                    }
                    assert(t.leaves =~= full.leaves);
                }
                hash_memory(self.pages, &root)
            },
            Backing::Witnessed { tree, last_root } => {
                flush_partial(tree, &self.bytes, &dirty);
                if let Some(root) = tree.root() {
                    *last_root = root;
                }
                hash_memory(self.pages, last_root)
            },
        }
    }

    /// The root of the page tree, once no write is pending.
    pub(crate) fn root(&mut self) -> (r: Digest)
        requires
            old(self).wf(),
            old(self).settled(),
        ensures
            final(self).wf(),
            final(self).settled(),
            final(self)@ == old(self)@,
            old(self)@.backing is Full ==> r == old(self)@.tree_root(),
            old(self)@.backing matches BackingView::Witnessed { last_root, .. } ==> r == last_root,
    {
        let ghost before = *self;
        match &mut self.backing {
            Backing::Full(tree) => {
                let root: Digest = tree.root();
                proof {
                    let full = full_tree(before.bytes@, before.pages, before.max_pages);
                    assert(tree@.leaves =~= full.leaves);
                }
                root
            },
            Backing::Witnessed { last_root, .. } => *last_root,
        }
    }

    /// The path of a page, once no write is pending. A reconstruction has none to give.
    pub(crate) fn path(&mut self, index: u32) -> (r: Option<Vec<Digest>>)
        requires
            old(self).wf(),
            old(self).settled(),
        ensures
            final(self).wf(),
            final(self).settled(),
            final(self)@ == old(self)@,
            r is Some <==> old(self)@.backing is Full && index < tree_pages(old(self)@.max_pages),
            r matches Some(path) ==> path@ == full_tree(
                old(self)@.bytes,
                old(self)@.pages,
                old(self)@.max_pages,
            ).path(index as nat),
    {
        let ghost before = *self;
        match &mut self.backing {
            Backing::Full(tree) => {
                let path = tree.page_proof(index as usize);
                proof {
                    let full = full_tree(before.bytes@, before.pages, before.max_pages);
                    assert(tree@.leaves =~= full.leaves);
                }
                path
            },
            Backing::Witnessed { .. } => None,
        }
    }

    /// A copy.
    pub(crate) fn duplicate(&self) -> (r: Self)
        ensures
            r@ == self@,
            self.wf() ==> r.wf(),
    {
        let backing = match &self.backing {
            Backing::Full(tree) => Backing::Full(tree.clone()),
            Backing::Witnessed { tree, last_root } => Backing::Witnessed {
                tree: tree.clone(),
                last_root: *last_root,
            },
        };
        Memory {
            bytes: vstd::slice::slice_to_vec(self.bytes.as_slice()),
            pages: self.pages,
            max_pages: self.max_pages,
            backing,
            dirty: self.dirty.duplicate(),
            resident: match &self.resident {
                Some(p) => Some(p.duplicate()),
                None => None,
            },
            accessed: match &self.accessed {
                Some(p) => Some(p.duplicate()),
                None => None,
            },
        }
    }

    /// Record every page touched from now on.
    pub(crate) fn note_accesses(&mut self)
        requires
            old(self).wf(),
        ensures
            final(self).wf(),
            final(self)@ == (MemoryView { accessed: Some(Set::empty()), ..old(self)@ }),
    {
        self.accessed = Some(PageSet::new());
    }

    /// The pages touched since they are noted, in increasing order.
    pub(crate) fn noted(&self) -> (r: Vec<u32>)
        requires
            self.wf(),
        ensures
            r@.to_set() == (match self@.accessed {
                Some(p) => p,
                None => Set::empty(),
            }),
            forall|i: int, j: int| 0 <= i < j < r@.len() ==> r@[i] < r@[j],
    {
        match &self.accessed {
            Some(p) => p.to_vec(),
            None => {
                let r: Vec<u32> = Vec::new();
                assert(r@.to_set() =~= Set::empty());
                r
            },
        }
    }

    /// A memory rebuilt from a witness: the bytes, the pages that were supplied, and what their
    /// proofs revealed.
    pub(crate) fn rebuilt(
        bytes: Vec<u8>,
        pages: u32,
        max_pages: u32,
        tree: PartialTree,
        last_root: Digest,
        resident: PageSet,
    ) -> (r: Self)
        requires
            bytes@.len() == pages * PAGE_SIZE,
            addressable(pages),
            addressable(max_pages),
            tree.wf(),
        ensures
            r.wf(),
            r@ == (MemoryView {
                bytes: bytes@,
                pages,
                max_pages,
                backing: BackingView::Witnessed { tree: tree@, dirty: Set::empty(), last_root },
                resident: Some(resident@),
                accessed: None,
            }),
    {
        Memory {
            bytes,
            pages,
            max_pages,
            backing: Backing::Witnessed { tree, last_root },
            dirty: PageSet::new(),
            resident: Some(resident),
            accessed: None,
        }
    }
}

/// Does a byte of an access lie in this page?
pub open spec fn lies_in(page: u32, start: int, len: nat) -> bool {
    exists|i: int| start <= i < start + len && #[trigger] is_in_page(i, page)
}

/// Does a byte lie in this page?
pub open spec fn is_in_page(i: int, page: u32) -> bool {
    page * 65536 <= i < (page + 1) * 65536
}

proof fn lemma_lies_in(page: u32, start: int, len: nat)
    requires
        0 <= start,
    ensures
        len > 0 ==> (lies_in(page, start, len) <==> start / 65536 <= page <= (start + len - 1)
            / 65536),
        len == 0 ==> !lies_in(page, start, len),
{
    if len > 0 && start / 65536 <= page <= (start + len - 1) / 65536 {
        let i = if start >= page * 65536 {
            start
        } else {
            page * 65536
        };
        assert(is_in_page(i, page));
    }
}

proof fn lemma_first_missing(pages: Set<u32>, first: int, last: int)
    requires
        0 <= first,
        last <= u32::MAX,
    ensures
        first_missing(pages, first, last) is None <==> forall|p: u32|
            first <= p <= last ==> #[trigger] pages.contains(p),
        first_missing(pages, first, last) matches Some(p) ==> first <= p <= last && !pages.contains(
            p,
        ) && forall|q: u32| first <= q < p ==> #[trigger] pages.contains(q),
    decreases last - first + 1,
{
    if first <= last {
        lemma_first_missing(pages, first + 1, last);
        if pages.contains(first as u32) {
            assert forall|q: u32| first <= q && !(first + 1 <= q) implies #[trigger] pages.contains(
                q,
            ) by {
                assert(q == first as u32);
            }
        } else {
            assert(!pages.contains(first as u32));
        }
    }
}

/// An access is noted in exactly the pages its bytes lie in, and changes nothing. Where only some
/// pages are there, it is refused exactly if a byte lies in one that is not, and the first such page
/// is told.
pub proof fn law_an_access_touches_its_pages(m: MemoryView, start: int, len: nat, page: u32)
    requires
        0 <= start,
        start + len <= 0x1_0000_0000 * 65536,
    ensures
        ({
            let (n, r) = m.touched(start, len);
            &&& n == (MemoryView { accessed: n.accessed, ..m })
            &&& m.accessed is None ==> n.accessed is None
            &&& r is Ok && m.accessed is Some ==> n.accessed is Some && (n.accessed->0.contains(page)
                <==> m.accessed->0.contains(page) || lies_in(page, start, len))
            &&& r is Err ==> n == m
            &&& m.resident is None ==> r is Ok
            &&& m.resident matches Some(there) ==> {
                &&& r is Ok && lies_in(page, start, len) ==> there.contains(page)
                &&& r matches Err(t) ==> t is WitnessIncomplete && !there.contains(
                    t->WitnessIncomplete_page,
                ) && lies_in(t->WitnessIncomplete_page, start, len) && (lies_in(page, start, len)
                    && page < t->WitnessIncomplete_page ==> there.contains(page))
            }
        }),
{
    let (first, last) = (start / 65536, (start + len - 1) / 65536);
    lemma_lies_in(page, start, len);
    if len > 0 {
        if let Some(there) = m.resident {
            lemma_first_missing(there, first, last);
            if let Some(p) = first_missing(there, first, last) {
                lemma_lies_in(p, start, len);
            }
        }
    }
}

/// Two whole memories of one size with one root hold the same bytes, or something that is hashed
/// for them collides.
pub proof fn law_the_root_binds_every_byte(a: MemoryView, b: MemoryView, i: int)
    requires
        a.backing is Full,
        b.backing is Full,
        a.pages == b.pages,
        a.max_pages == b.max_pages,
        a.pages <= tree_pages(a.max_pages),
        a.bytes.len() == a.pages * 65536,
        b.bytes.len() == b.pages * 65536,
        a.tree_root() == b.tree_root(),
        0 <= i < a.bytes.len(),
    ensures
        a.bytes[i] == b.bytes[i] || collision_among(
            node_inputs(full_tree(a.bytes, a.pages, a.max_pages).leaves).union(
                node_inputs(full_tree(b.bytes, b.pages, b.max_pages).leaves),
            ),
        ) || is_collision(
            leaf_preimage(a.bytes.subrange(i / 65536 * 65536, i / 65536 * 65536 + 65536)),
            leaf_preimage(b.bytes.subrange(i / 65536 * 65536, i / 65536 * 65536 + 65536)),
        ),
{
    let (s, t) = (
        full_tree(a.bytes, a.pages, a.max_pages),
        full_tree(b.bytes, b.pages, b.max_pages),
    );
    lemma_capacity(tree_pages(a.max_pages));
    law_root_binds_every_page(s, t);
    let p = i / 65536;
    if s.leaves == t.leaves {
        assert(s.leaves[p] == leaf_hash(page_of(a.bytes, p)));
        assert(t.leaves[p] == leaf_hash(page_of(b.bytes, p)));
        let (x, y) = (leaf_preimage(page_of(a.bytes, p)), leaf_preimage(page_of(b.bytes, p)));
        if x == y {
            assert(x[1 + i - p * 65536] == a.bytes[i]);
            assert(y[1 + i - p * 65536] == b.bytes[i]);
        }
    }
}

} // verus!
