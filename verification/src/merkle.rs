//! Incremental Merkle commitment over WebAssembly linear memory.
//!
//! Memory is committed as a binary Merkle tree over 64 KiB pages. Written pages are marked
//! dirty; a snapshot rehashes only those pages and the internal nodes above them, so its cost is
//! proportional to *writes*, not to memory size.
//!
//! During dispute arbitration the coordinator checks a single state transition without holding
//! either worker's memory image. A page plus its [`PageTree::page_proof`] is sufficient: [`verify`]
//! confirms the page belongs to a claimed root.
//!
//! # Determinism
//!
//! The root depends only on page contents. It does not depend on the order in which pages were
//! written, on how many snapshots were taken along the way, or on anything about the host.
//!
//! # What the root does *not* commit to
//!
//! The tree is padded to a power of two with zero pages, so two memories whose page counts round
//! up to the same capacity produce the same root when their contents match. The page count is
//! bound by [`crate::state::hash_memory`] instead.
use crate::bytes::{lemma_split_equal, put_bytes};
use crate::hash::{
    blake3_digest, blake3_hash, collision_among, is_collision, lemma_digest_binds, same_hash,
};
use crate::text;
use std::collections::{BTreeMap, BTreeSet};
use vstd::arithmetic::power2::{lemma2_to64, lemma_pow2_unfold, pow2};
use vstd::prelude::*;

verus! {

/// WebAssembly linear memory page size: 64 KiB.
///
/// Pages are committed at exactly this granularity so that a page index in a Merkle proof means
/// the same thing as a WebAssembly page index.
pub const PAGE_SIZE: usize = 65_536;

/// A 256-bit commitment.
pub type Hash = [u8; 32];

/// Domain separator for leaf hashes.
///
/// Leaves and internal nodes are hashed with different prefixes so that a page whose contents
/// happen to look like a concatenation of two hashes cannot be presented as an internal node, or
/// vice versa.
pub const LEAF_DOMAIN: u8 = 0x00;

/// Domain separator for internal node hashes. See [`LEAF_DOMAIN`].
pub const NODE_DOMAIN: u8 = 0x01;

/// What is hashed for one page.
pub open spec fn leaf_preimage(page: Seq<u8>) -> Seq<u8> {
    seq![LEAF_DOMAIN] + page
}

/// What is hashed for an internal node.
pub open spec fn node_preimage(left: Hash, right: Hash) -> Seq<u8> {
    seq![NODE_DOMAIN] + left@ + right@
}

/// The hash of one page.
pub open spec fn leaf_hash(page: Seq<u8>) -> Hash {
    blake3_digest(leaf_preimage(page))
}

/// The hash of an internal node from its two children.
pub open spec fn node_hash(left: Hash, right: Hash) -> Hash {
    blake3_digest(node_preimage(left, right))
}

/// A page of zeros.
pub open spec fn zero_page() -> Seq<u8> {
    Seq::new(PAGE_SIZE as nat, |i: int| 0u8)
}

/// Hash a leaf: one page of linear memory.
pub fn hash_leaf(page: &[u8]) -> (r: Hash)
    ensures
        r == leaf_hash(page@),
{
    let mut data: Vec<u8> = Vec::new();
    data.push(LEAF_DOMAIN);
    put_bytes(&mut data, page);
    assert(data@ =~= leaf_preimage(page@));
    blake3_hash(data.as_slice())
}

/// Hash an internal node from its two children.
pub fn hash_node(left: &Hash, right: &Hash) -> (r: Hash)
    ensures
        r == node_hash(*left, *right),
{
    let mut data: Vec<u8> = Vec::new();
    data.push(NODE_DOMAIN);
    put_bytes(&mut data, left.as_slice());
    put_bytes(&mut data, right.as_slice());
    assert(data@ =~= node_preimage(*left, *right));
    blake3_hash(data.as_slice())
}

/// Double `c` until it holds `pages`.
pub open spec fn grow_capacity(c: nat, pages: nat) -> nat
    decreases (if c < pages { pages - c } else { 0 }),
{
    if c >= pages || c == 0 {
        c
    } else {
        grow_capacity(2 * c, pages)
    }
}

/// The leaf count of a tree over `pages` pages: a power of two, at least two.
pub open spec fn capacity_for(pages: nat) -> nat {
    grow_capacity(2, pages)
}

/// Is this a power of two?
pub open spec fn is_power_of_two(c: nat) -> bool
    decreases c,
{
    c == 1 || (c > 1 && c % 2 == 0 && is_power_of_two(c / 2))
}

/// How many levels lie above a leaf of a tree with `c` leaves.
pub open spec fn levels(c: nat) -> nat
    decreases c,
{
    if c <= 1 {
        0
    } else {
        1 + levels(c / 2)
    }
}

/// The hash at node `i` of the tree over these leaf hashes.
///
/// The root is node 1 and the children of node `i` are `2i` and `2i + 1`, so leaf `p` is node
/// `leaves.len() + p`.
pub open spec fn node_value(leaves: Seq<Hash>, i: nat) -> Hash
    decreases 2 * leaves.len() - i,
{
    if i >= leaves.len() || i == 0 {
        leaves[i - leaves.len()]
    } else {
        node_hash(node_value(leaves, 2 * i), node_value(leaves, 2 * i + 1))
    }
}

/// The root over these leaf hashes.
pub open spec fn root_of(leaves: Seq<Hash>) -> Hash {
    node_value(leaves, 1)
}

/// The other child of a node's parent.
pub open spec fn sibling(node: nat) -> nat {
    if node % 2 == 0 {
        node + 1
    } else {
        (node - 1) as nat
    }
}

/// The sibling hashes met on the way from a node up to the root.
pub open spec fn path_of(leaves: Seq<Hash>, node: nat) -> Seq<Hash>
    decreases node,
{
    if node <= 1 {
        Seq::empty()
    } else {
        seq![node_value(leaves, sibling(node))] + path_of(leaves, node / 2)
    }
}

/// The hash reached by combining `hash`, at a position among its level's nodes, with each
/// sibling of a path in turn.
pub open spec fn climb(hash: Hash, position: nat, path: Seq<Hash>) -> Hash
    decreases path.len(),
{
    if path.len() == 0 {
        hash
    } else {
        let parent = if position % 2 == 0 {
            node_hash(hash, path[0])
        } else {
            node_hash(path[0], hash)
        };
        climb(parent, position / 2, path.drop_first())
    }
}

/// What is hashed on such a climb.
pub open spec fn climb_inputs(hash: Hash, position: nat, path: Seq<Hash>) -> Set<Seq<u8>>
    decreases path.len(),
{
    if path.len() == 0 {
        Set::empty()
    } else {
        let input = if position % 2 == 0 {
            node_preimage(hash, path[0])
        } else {
            node_preimage(path[0], hash)
        };
        climb_inputs(blake3_digest(input), position / 2, path.drop_first()).insert(input)
    }
}

/// What is hashed to check a page against a root.
pub open spec fn proof_inputs(index: nat, page: Seq<u8>, path: Seq<Hash>) -> Set<Seq<u8>> {
    climb_inputs(leaf_hash(page), index, path).insert(leaf_preimage(page))
}

/// What is hashed for the nodes above some leaves.
pub open spec fn node_inputs(leaves: Seq<Hash>) -> Set<Seq<u8>> {
    Set::new(
        |x: Seq<u8>|
            exists|i: nat|
                0 < i < leaves.len() && x == #[trigger] node_input(leaves, i),
    )
}

/// What is hashed for one node above some leaves.
pub open spec fn node_input(leaves: Seq<Hash>, i: nat) -> Seq<u8> {
    node_preimage(node_value(leaves, 2 * i), node_value(leaves, 2 * i + 1))
}

/// Does the path bind the page to the root, at that index? An index that a tree as deep as the
/// path is long does not have is bound to nothing.
pub open spec fn accepts(root: Hash, index: nat, page: Seq<u8>, path: Seq<Hash>) -> bool {
    &&& page.len() == PAGE_SIZE
    &&& index < pow2(path.len())
    &&& climb(leaf_hash(page), index, path) == root
}

/// Errors produced when updating a [`PageTree`].
#[derive(Debug, Clone, Copy, PartialEq, Eq, Structural)]
pub enum PageError {
    /// The page index is beyond the tree's logical page count.
    OutOfRange {
        /// The index that was requested.
        index: usize,
        /// The number of logical pages in the tree.
        pages: usize,
    },
    /// The supplied buffer was not exactly [`PAGE_SIZE`] bytes.
    WrongSize {
        /// The length that was supplied.
        got: usize,
    },
}

impl PageError {
    /// The message a person reads.
    pub open spec fn message(self) -> Seq<char> {
        match self {
            PageError::OutOfRange { index, pages } => "page index "@ + text::decimal_text(
                index as nat,
            ) + " out of range for a "@ + text::decimal_text(pages as nat) + "-page memory"@,
            PageError::WrongSize { got } => "page must be exactly 65536 bytes, got "@
                + text::decimal_text(got as nat),
        }
    }

    /// Render the error.
    #[must_use]
    pub fn to_string(&self) -> (r: String)
        ensures
            r@ == self.message(),
    {
        match *self {
            PageError::OutOfRange { index, pages } => {
                let i = text::decimal(index as u64);
                let p = text::decimal(pages as u64);
                text::join5(
                    "page index ",
                    i.as_str(),
                    " out of range for a ",
                    p.as_str(),
                    "-page memory",
                )
            },
            PageError::WrongSize { got } => {
                let n = text::decimal(got as u64);
                text::join2("page must be exactly 65536 bytes, got ", n.as_str())
            },
        }
    }
}

/// What a page tree commits to: its page count and the hash of every leaf, padding included.
pub struct TreeView {
    /// The logical page count.
    pub pages: nat,
    /// One hash per leaf.
    pub leaves: Seq<Hash>,
}

impl TreeView {
    /// A tree over zero pages.
    pub open spec fn zeroed(pages: nat) -> TreeView {
        TreeView {
            pages,
            leaves: Seq::new(capacity_for(pages), |i: int| leaf_hash(zero_page())),
        }
    }

    /// The root.
    pub open spec fn root(self) -> Hash {
        root_of(self.leaves)
    }

    /// The sibling path of a page.
    pub open spec fn path(self, index: nat) -> Seq<Hash> {
        path_of(self.leaves, self.leaves.len() + index)
    }

    /// The tree with one page replaced.
    pub open spec fn with_page(self, index: nat, page: Seq<u8>) -> TreeView {
        TreeView { leaves: self.leaves.update(index as int, leaf_hash(page)), ..self }
    }

    /// The leaf count is the page count's, and is a power of two.
    pub open spec fn well_sized(self) -> bool {
        &&& self.leaves.len() == capacity_for(self.pages)
        &&& self.pages <= self.leaves.len()
        &&& is_power_of_two(self.leaves.len())
        &&& self.leaves.len() >= 2
    }
}

/// The largest page count whose node array an allocation can hold.
pub open spec fn max_tree_pages() -> nat {
    ((isize::MAX as nat + 1) / 128) as nat
}

/// Is `a` the node `n`, or above it?
spec fn is_ancestor(a: nat, n: nat) -> bool
    decreases n,
{
    n >= 1 && (a == n || (n > 1 && is_ancestor(a, n / 2)))
}

/// Does an internal node hold the hash of its children?
spec fn fresh_at(nodes: Seq<Hash>, i: nat) -> bool {
    nodes[i as int] == node_hash(nodes[(2 * i) as int], nodes[(2 * i + 1) as int])
}

/// Is a node one of these, or above one of them?
spec fn above_any(i: nat, marks: Seq<usize>) -> bool {
    exists|k: int| 0 <= k < marks.len() && is_ancestor(i, #[trigger] marks[k] as nat)
}

/// Is a node above a leaf that these pages name?
spec fn above_any_leaf(i: nat, capacity: nat, pages: Set<usize>) -> bool {
    exists|p: usize| #[trigger] pages.contains(p) && is_ancestor(i, ((capacity + p) / 2) as nat)
}

/// Is this number half of one of these, rounded down?
spec fn halves_some(x: usize, marks: Seq<usize>) -> bool {
    exists|k: int| 0 <= k < marks.len() && x == (#[trigger] marks[k]) / 2
}

proof fn lemma_grow_capacity(c: nat, pages: nat)
    requires
        is_power_of_two(c),
        c >= 2,
    ensures
        is_power_of_two(grow_capacity(c, pages)),
        grow_capacity(c, pages) >= pages,
        grow_capacity(c, pages) >= c,
        grow_capacity(c, pages) == c || grow_capacity(c, pages) < 2 * pages,
    decreases (if c < pages { pages - c } else { 0 }),
{
    if c < pages {
        assert((2 * c) / 2 == c);
        lemma_grow_capacity(2 * c, pages);
    }
}

/// The capacity is a power of two that holds the pages, and no more than twice as many.
pub proof fn lemma_capacity(pages: nat)
    ensures
        is_power_of_two(capacity_for(pages)),
        capacity_for(pages) >= pages,
        capacity_for(pages) >= 2,
        capacity_for(pages) == 2 || capacity_for(pages) < 2 * pages,
{
    assert(is_power_of_two(1));
    assert(is_power_of_two(2)) by {
        reveal_with_fuel(is_power_of_two, 2);
    }
    lemma_grow_capacity(2, pages);
}

proof fn lemma_power_bound(c: nat, limit: nat)
    requires
        is_power_of_two(c),
        is_power_of_two(limit),
        c < 2 * limit,
    ensures
        c <= limit,
    decreases c,
{
    if c > 1 {
        if limit == 1 {
            assert(false);
        } else {
            lemma_power_bound(c / 2, limit / 2);
        }
    }
}

/// The capacity of an allowed page count: its node array fits.
pub proof fn lemma_capacity_fits(pages: nat)
    requires
        pages <= max_tree_pages(),
    ensures
        capacity_for(pages) <= max_tree_pages(),
        2 * capacity_for(pages) <= usize::MAX,
{
    lemma_capacity(pages);
    assert(max_tree_pages() == 0x100_0000 || max_tree_pages() == 0x100_0000_0000_0000) by {
        assert(isize::MAX == 0x7fff_ffff || isize::MAX == 0x7fff_ffff_ffff_ffff);
    }
    assert(is_power_of_two(0x100_0000)) by {
        reveal_with_fuel(is_power_of_two, 25);
    }
    assert(is_power_of_two(0x100_0000_0000_0000)) by {
        reveal_with_fuel(is_power_of_two, 57);
    }
    lemma_power_bound(capacity_for(pages), max_tree_pages());
}

/// The capacity of a tree over `pages` pages.
fn rounded_capacity(pages: usize) -> (r: usize)
    requires
        pages <= max_tree_pages(),
    ensures
        r == capacity_for(pages as nat),
{
    proof {
        lemma_capacity(pages as nat);
        lemma_capacity_fits(pages as nat);
    }
    let mut c: usize = 2;
    while c < pages
        invariant
            c >= 2,
            grow_capacity(c as nat, pages as nat) == capacity_for(pages as nat),
            2 * capacity_for(pages as nat) <= usize::MAX,
            pages <= capacity_for(pages as nat),
        decreases (if c < pages { pages - c } else { 0 }),
    {
        c = c * 2;
    }
    c
}

/// An incremental Merkle tree over the pages of a linear memory.
///
/// The tree is stored in implicit heap layout: the root lives at index 1, and the children of
/// node `i` are `2i` and `2i + 1`. Leaf `p` therefore lives at `capacity + p`, where `capacity`
/// is the page count rounded up to a power of two. Slot 0 is unused.
#[derive(Debug)]
pub struct PageTree {
    /// Logical page count, as declared by the workload manifest.
    pages: usize,
    /// `pages` rounded up to a power of two, minimum 2. Padding leaves hold zero pages.
    capacity: usize,
    /// Heap-layout node array of length `2 * capacity`.
    nodes: Vec<Hash>,
    /// Leaf indices written since the last root computation.
    dirty: BTreeSet<usize>,
}

impl View for PageTree {
    type V = TreeView;

    closed spec fn view(&self) -> TreeView {
        TreeView {
            pages: self.pages as nat,
            leaves: self.nodes@.subrange(self.capacity as int, 2 * self.capacity),
        }
    }
}

impl PageTree {
    /// The array has its shape.
    spec fn shaped(&self) -> bool {
        &&& self.capacity == capacity_for(self.pages as nat)
        &&& self.pages <= self.capacity
        &&& self.capacity >= 2
        &&& is_power_of_two(self.capacity as nat)
        &&& self.nodes@.len() == 2 * self.capacity
        &&& 2 * self.capacity <= usize::MAX
    }

    /// Every internal node holds the hash of its children, except above a dirty leaf.
    pub closed spec fn wf(&self) -> bool {
        &&& self.shaped()
        &&& forall|p: usize| #[trigger] self.dirty@.contains(p) ==> p < self.pages
        &&& forall|i: nat|
            1 <= i < self.capacity ==> #[trigger] fresh_at(self.nodes@, i) || above_any_leaf(
                i,
                self.capacity as nat,
                self.dirty@,
            )
    }

    /// A well-formed tree has a power-of-two leaf count.
    pub proof fn lemma_wf(&self)
        requires
            self.wf(),
        ensures
            self@.well_sized(),
    {
    }

    /// Build a tree committing to `pages` zero-filled pages.
    #[must_use]
    pub fn new(pages: usize) -> (r: Self)
        requires
            pages <= max_tree_pages(),
        ensures
            r.wf(),
            r@ == TreeView::zeroed(pages as nat),
    {
        proof {
            lemma_capacity(pages as nat);
            lemma_capacity_fits(pages as nat);
        }
        let capacity: usize = rounded_capacity(pages);
        let blank: Vec<u8> = vec![0u8; PAGE_SIZE];
        assert(blank@ =~= zero_page());
        let zero_leaf: Hash = hash_leaf(blank.as_slice());
        let mut nodes: Vec<Hash> = vec![zero_leaf; capacity * 2];
        assert(forall|k: int| 0 <= k < nodes@.len() ==> #[trigger] nodes@[k] == zero_leaf);
        let mut i: usize = capacity;
        while i > 1
            invariant
                1 <= i <= capacity,
                2 * capacity <= usize::MAX,
                nodes@.len() == 2 * capacity,
                forall|k: int| capacity <= k < 2 * capacity ==> #[trigger] nodes@[k] == zero_leaf,
                forall|k: nat| i <= k < capacity ==> #[trigger] fresh_at(nodes@, k),
            decreases i,
        {
            i = i - 1;
            let h: Hash = hash_node(&nodes[i * 2], &nodes[i * 2 + 1]);
            let ghost before = nodes@;
            nodes.set(i, h);
            assert forall|k: nat| i <= k < capacity implies #[trigger] fresh_at(nodes@, k) by {
                if k > i {
                    assert(fresh_at(before, k));
                }
            }
        }
        let r = Self { pages, capacity, nodes, dirty: BTreeSet::new() };
        assert(r@.leaves =~= TreeView::zeroed(pages as nat).leaves);
        r
    }

    /// The number of logical pages committed by this tree.
    #[must_use]
    pub fn pages(&self) -> (r: usize)
        ensures
            r == self@.pages,
    {
        self.pages
    }

    /// Record new contents for one page.
    ///
    /// The page is hashed immediately but the path to the root is not recomputed until
    /// [`root`](Self::root) or [`page_proof`](Self::page_proof) is called.
    pub fn set_page(&mut self, index: usize, page: &[u8]) -> (r: Result<(), PageError>)
        requires
            old(self).wf(),
        ensures
            final(self).wf(),
            r == (if index >= old(self)@.pages {
                Err(PageError::OutOfRange { index, pages: old(self)@.pages as usize })
            } else if page@.len() != PAGE_SIZE {
                Err(PageError::WrongSize { got: page@.len() as usize })
            } else {
                Ok(())
            }),
            r is Ok ==> final(self)@ == old(self)@.with_page(index as nat, page@),
            r is Err ==> final(self)@ == old(self)@,
    {
        if index >= self.pages {
            return Err(PageError::OutOfRange { index, pages: self.pages });
        }
        if page.len() != PAGE_SIZE {
            return Err(PageError::WrongSize { got: page.len() });
        }
        let leaf: usize = self.capacity + index;
        let h: Hash = hash_leaf(page);
        let ghost before = *self;
        self.nodes.set(leaf, h);
        broadcast use vstd::std_specs::btree::group_btree_axioms;

        self.dirty.insert(index);
        proof {
            assert(self@.leaves =~= before@.leaves.update(index as int, h));
            let (c, d) = (self.capacity as nat, self.dirty@);
            assert forall|i: nat| 1 <= i < c implies #[trigger] fresh_at(self.nodes@, i)
                || above_any_leaf(i, c, d) by {
                if i == leaf as nat / 2 {
                    assert(d.contains(index));
                    assert(is_ancestor(i, ((c + index) / 2) as nat));
                } else if fresh_at(before.nodes@, i) {
                    assert(fresh_at(self.nodes@, i));
                } else {
                    let x = choose|x: usize| #[trigger]
                        before.dirty@.contains(x) && is_ancestor(i, ((c + x) / 2) as nat);
                    assert(d.contains(x));
                }
            }
        }
        Ok(())
    }

    /// The current commitment to the whole memory.
    ///
    /// Recomputes any paths invalidated since the last call. Calling this repeatedly without
    /// intervening writes is free.
    pub fn root(&mut self) -> (r: Hash)
        requires
            old(self).wf(),
        ensures
            final(self).wf(),
            final(self)@ == old(self)@,
            r == old(self)@.root(),
    {
        self.recompute();
        proof {
            self.lemma_fresh(1);
        }
        self.nodes[1]
    }

    /// With nothing dirty, every node holds its value.
    proof fn lemma_fresh(&self, i: nat)
        requires
            self.wf(),
            self.dirty@.is_empty(),
            1 <= i < 2 * self.capacity,
        ensures
            self.nodes@[i as int] == node_value(self@.leaves, i),
        decreases 2 * self.capacity - i,
    {
        if i < self.capacity {
            assert(fresh_at(self.nodes@, i));
            self.lemma_fresh(2 * i);
            self.lemma_fresh(2 * i + 1);
        }
    }

    /// The sibling path proving page `index` belongs to the current [`root`](Self::root).
    ///
    /// The returned path runs from the leaf's sibling upward, one hash per level. Returns `None`
    /// if `index` is beyond the declared page count.
    pub fn page_proof(&mut self, index: usize) -> (r: Option<Vec<Hash>>)
        requires
            old(self).wf(),
        ensures
            final(self).wf(),
            final(self)@ == old(self)@,
            r is Some <==> index < old(self)@.pages,
            r matches Some(path) ==> path@ == old(self)@.path(index as nat),
    {
        if index >= self.pages {
            return None;
        }
        self.recompute();
        let mut path: Vec<Hash> = Vec::new();
        let mut node: usize = self.capacity + index;
        let ghost whole = self@.path(index as nat);
        assert(path@ + path_of(self@.leaves, node as nat) =~= whole);
        while node > 1
            invariant
                self.wf(),
                self.dirty@.is_empty(),
                self@ == old(self)@,
                1 <= node < 2 * self.capacity,
                path@ + path_of(self@.leaves, node as nat) == whole,
            decreases node,
        {
            let other: usize = if node % 2 == 0 {
                node + 1
            } else {
                node - 1
            };
            proof {
                self.lemma_fresh(other as nat);
            }
            let ghost before = path@;
            path.push(self.nodes[other]);
            assert(path@ + path_of(self@.leaves, node as nat / 2) =~= before + path_of(
                self@.leaves,
                node as nat,
            ));
            node = node / 2;
        }
        assert(path@ =~= whole);
        Some(path)
    }

    /// Rehash the paths from every dirty leaf to the root.
    ///
    /// Parents are collected once per level, so a batch of writes sharing ancestors pays for
    /// each shared node once rather than once per leaf.
    fn recompute(&mut self)
        requires
            old(self).wf(),
        ensures
            final(self).wf(),
            final(self)@ == old(self)@,
            final(self).dirty@.is_empty(),
    {
        broadcast use vstd::std_specs::btree::group_btree_axioms;

        if self.dirty.is_empty() {
            return;
        }
        let ghost c = self.capacity as nat;
        let mut level: Vec<usize> = Vec::new();
        let ghost marked = self.dirty@;
        for page in pages: self.dirty.iter()
            invariant
                self.wf(),
                *self == *old(self),
                marked == self.dirty@,
                pages.seq().unref().to_set() == marked,
                c == self.capacity,
                forall|m: int| 0 <= m < level@.len() ==> 1 <= #[trigger] level@[m] < c,
                forall|j: int|
                    0 <= j < pages.index() ==> level@.contains(
                        ((c + *#[trigger] pages.seq()[j]) / 2) as usize,
                    ),
        {
            proof {
                assert(pages.seq().unref()[pages.index() as int] == *page);
                assert(marked.contains(*page));
            }
            let parent: usize = (self.capacity + *page) / 2;
            push_new(&mut level, parent);
        }
        proof {
            assert forall|i: nat| 1 <= i < c implies #[trigger] fresh_at(self.nodes@, i)
                || above_any(i, level@) by {
                if !fresh_at(self.nodes@, i) {
                    let x = choose|x: usize| #[trigger]
                        marked.contains(x) && is_ancestor(i, ((c + x) / 2) as nat);
                    let p = ((c + x) / 2) as usize;
                    assert(level@.contains(p));
                    let m = choose|m: int| 0 <= m < level@.len() && level@[m] == p;
                    assert(is_ancestor(i, level@[m] as nat));
                }
            }
        }
        self.dirty.clear();
        let ghost mut bound: nat = c;
        while level.len() > 0
            invariant
                self.shaped(),
                self.dirty@.is_empty(),
                self@ == old(self)@,
                c == self.capacity,
                bound >= 1,
                forall|m: int|
                    0 <= m < level@.len() ==> 1 <= #[trigger] level@[m] < c && level@[m] < bound,
                forall|i: nat|
                    1 <= i < c ==> #[trigger] fresh_at(self.nodes@, i) || above_any(i, level@),
            decreases bound,
        {
            let parents = self.rehash_level(&level);
            proof {
                assert(level@[0] < bound);
                bound = ((bound - 1) / 2 + 1) as nat;
            }
            level = parents;
        }
        assert forall|i: nat| 1 <= i < c implies #[trigger] fresh_at(self.nodes@, i) by {}
    }

    /// Rehash the nodes of one level, and return their parents.
    fn rehash_level(&mut self, level: &Vec<usize>) -> (parents: Vec<usize>)
        requires
            old(self).shaped(),
            forall|m: int|
                0 <= m < level@.len() ==> 1 <= #[trigger] level@[m] < old(self).capacity,
            forall|i: nat|
                1 <= i < old(self).capacity ==> #[trigger] fresh_at(old(self).nodes@, i)
                    || above_any(i, level@),
        ensures
            final(self).shaped(),
            final(self)@ == old(self)@,
            final(self).capacity == old(self).capacity,
            final(self).dirty == old(self).dirty,
            forall|m: int|
                0 <= m < parents@.len() ==> 1 <= #[trigger] parents@[m] < final(self).capacity,
            forall|m: int| 0 <= m < parents@.len() ==> halves_some(#[trigger] parents@[m], level@),
            forall|i: nat|
                1 <= i < final(self).capacity ==> #[trigger] fresh_at(final(self).nodes@, i)
                    || above_any(i, parents@),
    {
        let mut parents: Vec<usize> = Vec::new();
        let mut k: usize = 0;
        let ghost c = self.capacity as nat;
        assert(level@.skip(0) =~= level@);
        while k < level.len()
            invariant
                self.shaped(),
                self@ == old(self)@,
                self.dirty == old(self).dirty,
                c == self.capacity,
                k <= level@.len(),
                forall|m: int| 0 <= m < level@.len() ==> 1 <= #[trigger] level@[m] < c,
                forall|m: int| 0 <= m < parents@.len() ==> 1 <= #[trigger] parents@[m] < c,
                forall|m: int|
                    0 <= m < parents@.len() ==> halves_some(#[trigger] parents@[m], level@),
                forall|i: nat|
                    1 <= i < c ==> #[trigger] fresh_at(self.nodes@, i) || above_any(
                        i,
                        level@.skip(k as int),
                    ) || above_any(i, parents@),
            decreases level@.len() - k,
        {
            let node: usize = level[k];
            let ghost nodes = self.nodes@;
            let ghost prior = parents@;
            let h: Hash = hash_node(&self.nodes[node * 2], &self.nodes[node * 2 + 1]);
            self.nodes.set(node, h);
            if node > 1 {
                push_new(&mut parents, node / 2);
            }
            proof {
                assert(self@.leaves =~= old(self)@.leaves);
                assert forall|i: nat| 1 <= i < c implies #[trigger] fresh_at(self.nodes@, i)
                    || above_any(i, level@.skip(k + 1)) || above_any(i, parents@) by {
                    if i == node as nat / 2 && node > 1 {
                        let m = choose|m: int| 0 <= m < parents@.len() && parents@[m] == node / 2;
                        assert(is_ancestor(i, parents@[m] as nat));
                    } else if i == node {
                        assert(fresh_at(self.nodes@, i));
                    } else if fresh_at(nodes, i) {
                        assert(fresh_at(self.nodes@, i));
                    } else if above_any(i, level@.skip(k as int)) {
                        let j = choose|j: int|
                            0 <= j < level@.skip(k as int).len() && is_ancestor(
                                i,
                                #[trigger] level@.skip(k as int)[j] as nat,
                            );
                        if j == 0 {
                            assert(is_ancestor(i, node as nat));
                            assert(is_ancestor(i, node as nat / 2));
                            let m = choose|m: int|
                                0 <= m < parents@.len() && parents@[m] == node / 2;
                            assert(is_ancestor(i, parents@[m] as nat));
                        } else {
                            assert(level@.skip(k + 1)[j - 1] == level@.skip(k as int)[j]);
                        }
                    } else {
                        let j = choose|j: int|
                            0 <= j < prior.len() && is_ancestor(i, #[trigger] prior[j] as nat);
                        assert(prior.contains(prior[j]));
                        assert(parents@.contains(prior[j]));
                        let m = choose|m: int| 0 <= m < parents@.len() && parents@[m] == prior[j];
                        assert(is_ancestor(i, parents@[m] as nat));
                    }
                }
                assert forall|m: int| 0 <= m < parents@.len() implies halves_some(
                    #[trigger] parents@[m],
                    level@,
                ) by {
                    if !prior.contains(parents@[m]) {
                        assert(parents@[m] == level@[k as int] / 2);
                    } else {
                        let q = choose|q: int| 0 <= q < prior.len() && prior[q] == parents@[m];
                        assert(prior[q] == parents@[m]);
                    }
                }
            }
            k = k + 1;
        }
        parents
    }
}

/// Append a number unless it is the last one already.
fn push_new(v: &mut Vec<usize>, x: usize)
    ensures
        final(v)@.contains(x),
        forall|y: usize| #[trigger] old(v)@.contains(y) ==> final(v)@.contains(y),
        forall|m: int|
            0 <= m < final(v)@.len() ==> #[trigger] final(v)@[m] == x || old(v)@.contains(
                final(v)@[m],
            ),
{
    let ghost before = v@;
    let n: usize = v.len();
    if n > 0 && v[n - 1] == x {
        assert(v@[n - 1] == x);
        return;
    }
    v.push(x);
    proof {
        assert(v@[n as int] == x);
        assert forall|y: usize| #[trigger] before.contains(y) implies v@.contains(y) by {
            let m = choose|m: int| 0 <= m < before.len() && before[m] == y;
            assert(v@[m] == y);
        }
        assert forall|m: int| 0 <= m < v@.len() implies #[trigger] v@[m] == x || before.contains(
            v@[m],
        ) by {
            if m < n {
                assert(before[m] == v@[m]);
            }
        }
    }
}

/// Check that `page` sits at `index` in the memory committed by `root`.
#[must_use]
pub fn verify(root: &Hash, index: usize, page: &[u8], path: &[Hash]) -> (r: bool)
    ensures
        r == accepts(*root, index as nat, page@, path@),
{
    if page.len() != PAGE_SIZE {
        return false;
    }
    let mut running: Hash = hash_leaf(page);
    let mut position: usize = index;
    let mut k: usize = 0;
    assert(path@.skip(0) =~= path@);
    while k < path.len()
        invariant
            k <= path@.len(),
            position < pow2((path@.len() - k) as nat) <==> index < pow2(path@.len()),
            climb(running, position as nat, path@.skip(k as int)) == climb(
                leaf_hash(page@),
                index as nat,
                path@,
            ),
        decreases path@.len() - k,
    {
        assert(path@.skip(k as int).drop_first() =~= path@.skip(k + 1));
        proof {
            lemma_pow2_unfold((path@.len() - k) as nat);
        }
        running = if position % 2 == 0 {
            hash_node(&running, &path[k])
        } else {
            hash_node(&path[k], &running)
        };
        position = position / 2;
        k = k + 1;
    }
    proof {
        lemma2_to64();
    }
    position == 0 && same_hash(&running, root)
}

/// A tree has as many leaves as its depth gives it.
proof fn lemma_depth(c: nat)
    requires
        is_power_of_two(c),
    ensures
        pow2(levels(c)) == c,
    decreases c,
{
    lemma2_to64();
    if c > 1 {
        lemma_depth(c / 2);
        lemma_pow2_unfold(levels(c));
    }
}

/// A path from a tree climbs back to that tree's root.
proof fn lemma_climb_path(leaves: Seq<Hash>, width: nat, position: nat)
    requires
        is_power_of_two(width),
        width <= leaves.len(),
        position < width,
    ensures
        climb(
            node_value(leaves, width + position),
            position,
            path_of(leaves, width + position),
        ) == root_of(leaves),
    decreases width,
{
    let node = width + position;
    if width > 1 {
        lemma_climb_path(leaves, width / 2, position / 2);
        assert(node / 2 == width / 2 + position / 2);
        assert(node % 2 == position % 2);
        assert(path_of(leaves, node).drop_first() =~= path_of(leaves, node / 2));
    }
}

/// The page a tree holds at an index, with the path the tree gives for it, always verifies.
pub proof fn law_proof_verifies(tree: TreeView, index: nat, page: Seq<u8>)
    requires
        tree.well_sized(),
        index < tree.pages,
        page.len() == PAGE_SIZE,
        tree.leaves[index as int] == leaf_hash(page),
    ensures
        accepts(tree.root(), index, page, tree.path(index)),
        tree.path(index).len() == levels(tree.leaves.len()),
{
    lemma_climb_path(tree.leaves, tree.leaves.len(), index);
    lemma_depth(tree.leaves.len());
    lemma_path_len(tree.leaves, tree.leaves.len(), index);
}

proof fn lemma_path_len(leaves: Seq<Hash>, width: nat, position: nat)
    requires
        is_power_of_two(width),
        position < width,
    ensures
        path_of(leaves, width + position).len() == levels(width),
    decreases width,
{
    if width > 1 {
        assert((width + position) / 2 == width / 2 + position / 2);
        lemma_path_len(leaves, width / 2, position / 2);
    }
}

/// Hashing a node binds both children.
proof fn lemma_node_binds(a: Hash, b: Hash, c: Hash, d: Hash)
    requires
        node_hash(a, b) == node_hash(c, d),
    ensures
        (a == c && b == d) || is_collision(node_preimage(a, b), node_preimage(c, d)),
{
    if node_preimage(a, b) == node_preimage(c, d) {
        let m = seq![NODE_DOMAIN];
        assert(m + a@ + b@ =~= m + (a@ + b@));
        assert(m + c@ + d@ =~= m + (c@ + d@));
        lemma_split_equal(m, a@ + b@, m, c@ + d@);
        lemma_split_equal(a@, b@, c@, d@);
        assert(a =~= c);
        assert(b =~= d);
    }
}

/// A climb that ends at a tree's root started from the tree's own node, along its own path.
proof fn lemma_climb_binds(
    leaves: Seq<Hash>,
    width: nat,
    position: nat,
    hash: Hash,
    path: Seq<Hash>,
    inputs: Set<Seq<u8>>,
)
    requires
        is_power_of_two(width),
        width <= leaves.len(),
        position < width,
        path.len() == levels(width),
        climb(hash, position, path) == root_of(leaves),
        climb_inputs(hash, position, path).subset_of(inputs),
        node_inputs(leaves).subset_of(inputs),
    ensures
        (hash == node_value(leaves, width + position) && path == path_of(leaves, width + position))
            || collision_among(inputs),
    decreases width,
{
    let node = width + position;
    if width > 1 {
        let input = if position % 2 == 0 {
            node_preimage(hash, path[0])
        } else {
            node_preimage(path[0], hash)
        };
        let parent = blake3_digest(input);
        assert(node / 2 == width / 2 + position / 2);
        assert(node % 2 == position % 2);
        assert(climb_inputs(hash, position, path).contains(input));
        assert(climb_inputs(parent, position / 2, path.drop_first()).subset_of(inputs));
        lemma_climb_binds(leaves, width / 2, position / 2, parent, path.drop_first(), inputs);
        if !collision_among(inputs) {
            let l = 2 * (node / 2);
            assert(node_inputs(leaves).contains(node_input(leaves, node / 2)));
            if position % 2 == 0 {
                lemma_node_binds(hash, path[0], node_value(leaves, l), node_value(leaves, l + 1));
            } else {
                lemma_node_binds(path[0], hash, node_value(leaves, l), node_value(leaves, l + 1));
            }
            assert(path =~= seq![path[0]] + path.drop_first());
        }
    } else {
        assert(path =~= Seq::<Hash>::empty());
    }
}

/// A page that verifies against a tree's root, with a path as long as the tree is deep, is the
/// page the tree committed to at that index, which the tree has. Anything else is a collision among what is hashed
/// for the tree and what is hashed to check the page.
pub proof fn law_verified_page_is_the_committed_page(
    tree: TreeView,
    index: nat,
    committed: Seq<u8>,
    page: Seq<u8>,
    path: Seq<Hash>,
)
    requires
        tree.well_sized(),
        index < tree.leaves.len() ==> tree.leaves[index as int] == leaf_hash(committed),
        path.len() == levels(tree.leaves.len()),
        accepts(tree.root(), index, page, path),
    ensures
        index < tree.leaves.len(),
        (page == committed && path == tree.path(index)) || collision_among(
            node_inputs(tree.leaves).insert(leaf_preimage(committed)).union(
                proof_inputs(index, page, path),
            ),
        ),
{
    let inputs = node_inputs(tree.leaves).insert(leaf_preimage(committed)).union(
        proof_inputs(index, page, path),
    );
    lemma_depth(tree.leaves.len());
    lemma_climb_binds(tree.leaves, tree.leaves.len(), index, leaf_hash(page), path, inputs);
    if !collision_among(inputs) {
        lemma_digest_binds(inputs, leaf_preimage(page), leaf_preimage(committed));
        lemma_split_equal(seq![LEAF_DOMAIN], page, seq![LEAF_DOMAIN], committed);
    }
}

proof fn lemma_halves(leaves: Seq<Hash>, width: nat, position: nat)
    requires
        is_power_of_two(leaves.len()),
        is_power_of_two(width),
        leaves.len() > 1,
        2 * width <= leaves.len(),
        position < width,
    ensures
        ({
            let h = (leaves.len() / 2) as int;
            &&& node_value(leaves.take(h), width + position) == node_value(
                leaves,
                2 * width + position,
            )
            &&& node_value(leaves.skip(h), width + position) == node_value(
                leaves,
                3 * width + position,
            )
        }),
    decreases leaves.len() - width,
{
    let h = leaves.len() / 2;
    assert(leaves.len() == 2 * h);
    if width < h {
        lemma_doubles(width, h);
        assert((2 * width) / 2 == width && (2 * width) % 2 == 0);
        lemma_halves(leaves, 2 * width, 2 * position);
        lemma_halves(leaves, 2 * width, 2 * position + 1);
        let n = width + position;
        assert(2 * (2 * width + position) == 2 * (2 * width) + 2 * position);
        assert(2 * (3 * width + position) == 3 * (2 * width) + 2 * position);
        assert(2 * n == 2 * width + 2 * position);
    }
}

proof fn lemma_doubles(a: nat, b: nat)
    requires
        is_power_of_two(a),
        is_power_of_two(b),
        a < b,
    ensures
        2 * a <= b,
    decreases b,
{
    if a > 1 {
        lemma_doubles(a / 2, b / 2);
    }
}

/// The root over some pages is the hash of the roots over the first and the second half of them,
/// the first half first, and the root over one page is its own hash. A page is hashed behind a zero
/// byte and a pair of roots behind a one.
pub proof fn law_a_root_joins_two_halves(leaves: Seq<Hash>, page: Seq<u8>)
    requires
        is_power_of_two(leaves.len()),
    ensures
        leaf_hash(page) == blake3_digest(seq![0x00u8] + page),
        leaves.len() == 1 ==> root_of(leaves) == leaves[0],
        leaves.len() > 1 ==> root_of(leaves) == blake3_digest(
            seq![0x01u8] + root_of(leaves.take((leaves.len() / 2) as int))@ + root_of(
                leaves.skip((leaves.len() / 2) as int),
            )@,
        ),
{
    if leaves.len() > 1 {
        lemma_halves(leaves, 1, 0);
    }
}

proof fn lemma_least_capacity(c: nat, pages: nat)
    requires
        is_power_of_two(c),
        c >= 2,
        c == 2 || c / 2 < pages,
    ensures
        ({
            let r = grow_capacity(c, pages);
            &&& is_power_of_two(r)
            &&& r >= 2
            &&& r >= pages
            &&& r == 2 || r / 2 < pages
        }),
    decreases
            (if c < pages {
                pages - c
            } else {
                0
            }),
{
    if c < pages {
        assert((2 * c) / 2 == c && (2 * c) % 2 == 0);
        lemma_least_capacity(2 * c, pages);
    }
}

/// A tree has as many leaves as the least power of two that holds its pages, and at least two.
pub proof fn law_the_capacity_is_the_least_power_of_two(pages: nat)
    ensures
        ({
            let c = capacity_for(pages);
            &&& is_power_of_two(c)
            &&& c >= 2
            &&& c >= pages
            &&& c == 2 || c / 2 < pages
        }),
{
    assert(is_power_of_two(1));
    assert(is_power_of_two(2));
    lemma_least_capacity(2, pages);
}

/// A new tree is of pages of zeros. Writing a page changes its leaf and no other, and the page that
/// was written is then the one that verifies at its index, with a path as long as the tree is deep
/// that begins with the leaf beside it.
pub proof fn law_a_page_is_written_alone(pages: nat, tree: TreeView, index: nat, page: Seq<u8>, i: int)
    requires
        tree.well_sized(),
        index < tree.pages,
        page.len() == 65536,
        0 <= i < tree.leaves.len(),
    ensures
        TreeView::zeroed(pages).pages == pages,
        TreeView::zeroed(pages).leaves.len() == capacity_for(pages),
        i < capacity_for(pages) ==> TreeView::zeroed(pages).leaves[i] == leaf_hash(
            Seq::new(65536, |k: int| 0u8),
        ),
        ({
            let now = tree.with_page(index, page);
            let path = now.path(index);
            &&& now.pages == tree.pages
            &&& now.leaves.len() == tree.leaves.len()
            &&& now.leaves[i] == if i == index {
                leaf_hash(page)
            } else {
                tree.leaves[i]
            }
            &&& accepts(now.root(), index, page, path)
            &&& pow2(path.len()) == now.leaves.len()
            &&& path[0] == now.leaves[if index % 2 == 0 {
                index as int + 1
            } else {
                index - 1
            }]
        }),
{
    let now = tree.with_page(index, page);
    let c = now.leaves.len();
    law_proof_verifies(now, index, page);
    lemma_depth(c);
    assert(Seq::new(65536, |k: int| 0u8) =~= zero_page());
    let node = c + index;
    assert(node > 1);
    assert(node % 2 == index % 2) by {
        assert(c % 2 == 0);
    }
    assert(path_of(now.leaves, node)[0] == node_value(now.leaves, sibling(node)));
    assert(node_value(now.leaves, sibling(node)) == now.leaves[sibling(node) - c]);
}

/// No page can be presented as an internal node, or an internal node as a page: what is hashed
/// for one never equals what is hashed for the other.
pub proof fn law_leaves_and_nodes_are_distinct(page: Seq<u8>, left: Hash, right: Hash)
    ensures
        leaf_preimage(page) != node_preimage(left, right),
{
    assert(leaf_preimage(page)[0] == LEAF_DOMAIN);
    assert(node_preimage(left, right)[0] == NODE_DOMAIN);
}

/// Writing two different pages in either order leaves the same tree, and so the same root.
pub proof fn law_write_order_is_irrelevant(
    tree: TreeView,
    i: nat,
    a: Seq<u8>,
    j: nat,
    b: Seq<u8>,
)
    requires
        i != j,
        i < tree.leaves.len(),
        j < tree.leaves.len(),
    ensures
        tree.with_page(i, a).with_page(j, b) == tree.with_page(j, b).with_page(i, a),
{
    assert(tree.with_page(i, a).with_page(j, b).leaves =~= tree.with_page(j, b).with_page(
        i,
        a,
    ).leaves);
}

proof fn lemma_equal_nodes(a: Seq<Hash>, b: Seq<Hash>, width: nat, position: nat)
    requires
        a.len() == b.len(),
        is_power_of_two(width),
        width <= a.len(),
        position < width,
        root_of(a) == root_of(b),
    ensures
        node_value(a, width + position) == node_value(b, width + position) || collision_among(
            node_inputs(a).union(node_inputs(b)),
        ),
    decreases width,
{
    if width > 1 {
        let node = width + position;
        assert(node / 2 == width / 2 + position / 2);
        lemma_equal_nodes(a, b, width / 2, position / 2);
        if !collision_among(node_inputs(a).union(node_inputs(b))) {
            let l = 2 * (node / 2);
            assert(node_inputs(a).contains(node_input(a, node / 2)));
            assert(node_inputs(b).contains(node_input(b, node / 2)));
            lemma_node_binds(
                node_value(a, l),
                node_value(a, l + 1),
                node_value(b, l),
                node_value(b, l + 1),
            );
        }
    }
}

/// Two trees of one size with one root hold the same leaves, or what was hashed for their nodes
/// collides: changing any byte of any page changes the root.
pub proof fn law_root_binds_every_page(a: TreeView, b: TreeView)
    requires
        a.well_sized(),
        b.well_sized(),
        a.leaves.len() == b.leaves.len(),
        a.root() == b.root(),
    ensures
        a.leaves == b.leaves || collision_among(node_inputs(a.leaves).union(node_inputs(b.leaves))),
{
    if !collision_among(node_inputs(a.leaves).union(node_inputs(b.leaves))) {
        assert forall|i: int| 0 <= i < a.leaves.len() implies a.leaves[i] == b.leaves[i] by {
            lemma_equal_nodes(a.leaves, b.leaves, a.leaves.len(), i as nat);
        }
        assert(a.leaves =~= b.leaves);
    }
}

/// What a partial tree could not accept.
#[derive(Debug, Clone, Copy, PartialEq, Eq, Structural)]
pub enum PartialError {
    /// The page index is beyond the tree's logical page count.
    OutOfRange {
        /// The index that was requested.
        index: usize,
        /// The number of logical pages in the tree.
        pages: usize,
    },
    /// The supplied buffer was not exactly [`PAGE_SIZE`] bytes.
    WrongSize {
        /// The length that was supplied.
        got: usize,
    },
    /// The path does not have one hash per level.
    WrongPathLength {
        /// How many hashes it carried.
        got: usize,
    },
    /// The page was never supplied, so nothing is known about the path above it.
    NotSupplied {
        /// The page index.
        index: usize,
    },
}

/// What a partial tree knows.
pub struct PartialView {
    /// The logical page count.
    pub pages: nat,
    /// The leaf count.
    pub capacity: nat,
    /// The hashes of the supplied leaves, by node index.
    pub leaves: Map<usize, Hash>,
    /// The hashes that the supplied paths revealed, by node index.
    pub siblings: Map<usize, Hash>,
    /// The supplied leaves and everything above them.
    pub path: Set<usize>,
}

/// What a map holds at a key, if anything.
pub open spec fn lookup(m: Map<usize, Hash>, node: nat) -> Option<Hash> {
    if m.contains_key(node as usize) {
        Some(m[node as usize])
    } else {
        None
    }
}

impl PartialView {
    /// A tree about which nothing is known.
    pub open spec fn unknown(pages: nat) -> PartialView {
        PartialView {
            pages,
            capacity: capacity_for(pages),
            leaves: Map::empty(),
            siblings: Map::empty(),
            path: Set::empty(),
        }
    }

    /// The hash of a node, if what is known determines it: a node above a supplied leaf is
    /// computed from its children, any other was revealed by a path or is unknown.
    pub open spec fn known(self, node: nat) -> Option<Hash>
        decreases 2 * self.capacity - node,
    {
        if !self.path.contains(node as usize) || node == 0 {
            lookup(self.siblings, node)
        } else if node >= self.capacity {
            lookup(self.leaves, node)
        } else {
            match (self.known(2 * node), self.known(2 * node + 1)) {
                (Some(left), Some(right)) => Some(node_hash(left, right)),
                _ => None,
            }
        }
    }

    /// The root, if what is known determines it.
    pub open spec fn root(self) -> Option<Hash> {
        self.known(1)
    }

    /// The node of a page.
    pub open spec fn node_of(self, index: nat) -> nat {
        self.capacity + index
    }

    /// Has this page been supplied?
    pub open spec fn supplied(self, index: nat) -> bool {
        self.path.contains(self.node_of(index) as usize)
    }

    /// Learn the siblings along a path that starts at `node`.
    pub open spec fn with_path(self, node: nat, path: Seq<Hash>) -> PartialView
        decreases node,
    {
        if node <= 1 {
            PartialView { path: self.path.insert(1), ..self }
        } else {
            PartialView {
                path: self.path.insert(node as usize),
                siblings: self.siblings.insert(sibling(node) as usize, path[0]),
                ..self
            }.with_path(node / 2, path.drop_first())
        }
    }

    /// Learn a page and the path above it.
    pub open spec fn with_supplied(
        self,
        index: nat,
        page: Seq<u8>,
        path: Seq<Hash>,
    ) -> PartialView {
        self.with_page(index, page).with_path(self.node_of(index), path)
    }

    /// Replace a page.
    pub open spec fn with_page(self, index: nat, page: Seq<u8>) -> PartialView {
        PartialView {
            leaves: self.leaves.insert(self.node_of(index) as usize, leaf_hash(page)),
            ..self
        }
    }

    /// A node above a supplied leaf has its parent there too, unless that is `pending`, and has
    /// both children known.
    pub open spec fn node_agrees(self, tree: TreeView, pending: nat, n: usize) -> bool {
        &&& 1 <= n < 2 * self.capacity
        &&& n > 1 ==> self.path.contains((n / 2) as usize) || n / 2 == pending
        &&& n >= self.capacity ==> self.leaves.contains_key(n) && self.leaves[n]
            == tree.leaves[n - self.capacity]
        &&& n < self.capacity ==> self.has((2 * n) as nat) && self.has((2 * n + 1) as nat)
    }

    /// Everything known is true of this tree, and the hashes needed to recompute the root from
    /// the supplied leaves are all there. The parent of the node `pending` may be missing.
    pub open spec fn agrees_but(self, tree: TreeView, pending: nat) -> bool {
        &&& self.capacity == tree.leaves.len()
        &&& 2 * self.capacity <= usize::MAX
        &&& forall|n: usize|
            self.path.contains(n) ==> #[trigger] self.node_agrees(tree, pending, n)
        &&& forall|n: usize| #[trigger]
            self.siblings.contains_key(n) ==> 1 <= n < 2 * self.capacity && (self.path.contains(n)
                || self.siblings[n] == node_value(tree.leaves, n as nat))
    }

    /// A node that is either above a supplied leaf or was revealed.
    pub open spec fn has(self, n: nat) -> bool {
        self.path.contains(n as usize) || self.siblings.contains_key(n as usize)
    }

    /// Everything known is true of this tree, and suffices to recompute its root.
    pub open spec fn agrees(self, tree: TreeView) -> bool {
        self.agrees_but(tree, 0)
    }
}

proof fn lemma_known(v: PartialView, tree: TreeView, n: nat)
    requires
        v.agrees(tree),
        1 <= n < 2 * v.capacity,
        v.has(n),
    ensures
        v.known(n) == Some(node_value(tree.leaves, n)),
    decreases 2 * v.capacity - n,
{
    if v.path.contains(n as usize) {
        assert(v.node_agrees(tree, 0, n as usize));
        if n < v.capacity {
            lemma_known(v, tree, 2 * n);
            lemma_known(v, tree, 2 * n + 1);
        }
    }
}

/// Once a page is known, a partial tree that agrees with a full one has its root.
pub proof fn law_partial_root_is_the_root(v: PartialView, tree: TreeView, index: nat)
    requires
        v.agrees(tree),
        index < v.capacity,
        v.supplied(index),
        is_power_of_two(v.capacity),
    ensures
        v.root() == Some(tree.root()),
{
    lemma_up_to_root(v, tree, v.node_of(index));
    lemma_known(v, tree, 1);
}

proof fn lemma_up_to_root(v: PartialView, tree: TreeView, n: nat)
    requires
        v.agrees(tree),
        1 <= n < 2 * v.capacity,
        v.path.contains(n as usize),
    ensures
        v.path.contains(1),
    decreases n,
{
    assert(v.node_agrees(tree, 0, n as usize));
    if n > 1 {
        lemma_up_to_root(v, tree, n / 2);
    }
}

/// A partial tree that knows nothing agrees with every tree of its size.
pub proof fn law_nothing_known_agrees(tree: TreeView)
    requires
        tree.well_sized(),
        2 * tree.leaves.len() <= usize::MAX,
    ensures
        PartialView::unknown(tree.pages).agrees(tree),
{
}

proof fn lemma_with_path_agrees(v: PartialView, tree: TreeView, node: nat)
    requires
        v.agrees_but(tree, node),
        1 <= node < 2 * v.capacity,
        node >= v.capacity ==> v.leaves.contains_key(node as usize) && v.leaves[node as usize]
            == tree.leaves[node - v.capacity],
        node < v.capacity ==> v.has(2 * node) && v.has(2 * node + 1),
        v.capacity % 2 == 0,
    ensures
        v.with_path(node, path_of(tree.leaves, node)).agrees(tree),
    decreases node,
{
    let path = path_of(tree.leaves, node);
    if node <= 1 {
        let w = v.with_path(node, path);
        assert forall|n: usize| w.path.contains(n) implies #[trigger] w.node_agrees(tree, 0, n) by {
            if n != 1 {
                assert(v.node_agrees(tree, node, n));
            }
            if n < w.capacity {
                assert(v.has((2 * n) as nat) && v.has((2 * n + 1) as nat));
            }
        }
    } else {
        let w = PartialView {
            path: v.path.insert(node as usize),
            siblings: v.siblings.insert(sibling(node) as usize, path[0]),
            ..v
        };
        assert(path.drop_first() =~= path_of(tree.leaves, node / 2));
        assert forall|n: usize| w.path.contains(n) implies #[trigger] w.node_agrees(tree, node / 2, n) by {
            if n != node {
                assert(v.node_agrees(tree, node, n));
            }
            if n < w.capacity {
                assert(v.has((2 * n) as nat) && v.has((2 * n + 1) as nat));
            }
        }
        assert(w.agrees_but(tree, node / 2));
        assert(w.has(node) && w.has(sibling(node)));
        lemma_with_path_agrees(w, tree, node / 2);
    }
}

/// Learning a page of a tree, with the path the tree gives for it, keeps agreement with it.
pub proof fn law_supplying_a_page_agrees(
    v: PartialView,
    tree: TreeView,
    index: nat,
    page: Seq<u8>,
)
    requires
        v.agrees(tree),
        tree.well_sized(),
        index < tree.leaves.len(),
        tree.leaves[index as int] == leaf_hash(page),
    ensures
        v.with_supplied(index, page, tree.path(index)).agrees(tree),
{
    let w = v.with_page(index, page);
    let node = v.node_of(index);
    assert forall|n: usize| w.path.contains(n) implies #[trigger] w.node_agrees(tree, node, n) by {
        assert(v.node_agrees(tree, 0, n));
        if n < w.capacity {
            assert(v.has((2 * n) as nat) && v.has((2 * n + 1) as nat));
        }
    }
    assert(w.agrees_but(tree, node));
    lemma_with_path_agrees(w, tree, node);
}

proof fn lemma_ancestor_step(a: nat, n: nat)
    requires
        n >= 1,
        a >= 1,
        is_ancestor(2 * a, n) || is_ancestor(2 * a + 1, n),
    ensures
        is_ancestor(a, n),
    decreases n,
{
    if n == 2 * a || n == 2 * a + 1 {
        assert(n / 2 == a);
        assert(is_ancestor(a, a));
    } else {
        lemma_ancestor_step(a, n / 2);
    }
}

/// Replacing a leaf changes only the nodes above it.
proof fn lemma_update_elsewhere(leaves: Seq<Hash>, index: nat, h: Hash, n: nat)
    requires
        index < leaves.len(),
        1 <= n < 2 * leaves.len(),
        !is_ancestor(n, leaves.len() + index),
    ensures
        node_value(leaves.update(index as int, h), n) == node_value(leaves, n),
    decreases 2 * leaves.len() - n,
{
    let leaf = leaves.len() + index;
    if n < leaves.len() {
        if is_ancestor(2 * n, leaf) || is_ancestor(2 * n + 1, leaf) {
            lemma_ancestor_step(n, leaf);
        }
        lemma_update_elsewhere(leaves, index, h, 2 * n);
        lemma_update_elsewhere(leaves, index, h, 2 * n + 1);
    } else {
        assert(n != leaf) by {
            assert(is_ancestor(leaf, leaf));
        }
    }
}

proof fn lemma_ancestors_on_path(v: PartialView, tree: TreeView, a: nat, n: nat)
    requires
        v.agrees(tree),
        1 <= n < 2 * v.capacity,
        v.path.contains(n as usize),
        is_ancestor(a, n),
    ensures
        v.path.contains(a as usize),
    decreases n,
{
    assert(v.node_agrees(tree, 0, n as usize));
    if a != n {
        lemma_ancestors_on_path(v, tree, a, n / 2);
    }
}

/// Writing a supplied page to both a tree and a partial tree that agrees with it keeps them in
/// agreement, so their roots stay equal.
pub proof fn law_writing_a_page_agrees(v: PartialView, tree: TreeView, index: nat, page: Seq<u8>)
    requires
        v.agrees(tree),
        tree.well_sized(),
        index < tree.leaves.len(),
        v.supplied(index),
    ensures
        v.with_page(index, page).agrees(tree.with_page(index, page)),
{
    let w = v.with_page(index, page);
    let t = tree.with_page(index, page);
    let node = v.node_of(index);
    assert forall|n: usize| w.path.contains(n) implies #[trigger] w.node_agrees(t, 0, n) by {
        assert(v.node_agrees(tree, 0, n));
        if n < w.capacity {
            assert(v.has((2 * n) as nat) && v.has((2 * n + 1) as nat));
        }
    }
    assert forall|n: usize| #[trigger] w.siblings.contains_key(n) implies 1 <= n < 2 * w.capacity
        && (w.path.contains(n) || w.siblings[n] == node_value(t.leaves, n as nat)) by {
        assert(v.siblings.contains_key(n));
        if !v.path.contains(n) {
            if is_ancestor(n as nat, node) {
                lemma_ancestors_on_path(v, tree, n as nat, node);
            }
            lemma_update_elsewhere(tree.leaves, index, leaf_hash(page), n as nat);
        }
    }
}

proof fn lemma_with_path_grows(v: PartialView, node: nat, path: Seq<Hash>)
    requires
        node >= 1,
    ensures
        v.with_path(node, path).pages == v.pages,
        v.with_path(node, path).capacity == v.capacity,
        v.path.subset_of(v.with_path(node, path).path),
        v.with_path(node, path).path.contains(node as usize),
    decreases node,
{
    if node > 1 {
        lemma_with_path_grows(
            PartialView {
                path: v.path.insert(node as usize),
                siblings: v.siblings.insert(sibling(node) as usize, path[0]),
                ..v
            },
            node / 2,
            path.drop_first(),
        );
    }
}

/// Supplying a page keeps every page supplied before it.
pub proof fn law_supplied_pages_stay_supplied(
    v: PartialView,
    index: nat,
    page: Seq<u8>,
    path: Seq<Hash>,
)
    requires
        v.capacity >= 1,
    ensures
        v.with_supplied(index, page, path).pages == v.pages,
        v.with_supplied(index, page, path).capacity == v.capacity,
        v.with_supplied(index, page, path).supplied(index),
        forall|i: nat| #[trigger]
            v.supplied(i) ==> v.with_supplied(index, page, path).supplied(i),
{
    lemma_with_path_grows(v.with_page(index, page), v.node_of(index), path);
}

/// A node depends only on the leaves below it.
proof fn lemma_same_below(a: Seq<Hash>, b: Seq<Hash>, n: nat)
    requires
        a.len() == b.len(),
        1 <= n < 2 * a.len(),
        forall|i: int|
            0 <= i < a.len() && #[trigger] is_ancestor(n, (a.len() + i) as nat) ==> a[i] == b[i],
    ensures
        node_value(a, n) == node_value(b, n),
    decreases 2 * a.len() - n,
{
    if n < a.len() {
        assert forall|i: int|
            0 <= i < a.len() && #[trigger] is_ancestor(2 * n, (a.len() + i) as nat) implies a[i]
            == b[i] by {
            lemma_ancestor_step(n, (a.len() + i) as nat);
        }
        assert forall|i: int|
            0 <= i < a.len() && #[trigger] is_ancestor(2 * n + 1, (a.len() + i) as nat) implies a[i]
            == b[i] by {
            lemma_ancestor_step(n, (a.len() + i) as nat);
        }
        lemma_same_below(a, b, 2 * n);
        lemma_same_below(a, b, 2 * n + 1);
    } else {
        let i = n - a.len();
        assert(is_ancestor(n, (a.len() + i) as nat));
    }
}

/// Writing any number of supplied pages to both a tree and a partial tree that agrees with it
/// keeps them in agreement.
pub proof fn law_writing_supplied_pages_agrees(
    v: PartialView,
    tree: TreeView,
    leaves: Map<usize, Hash>,
    written: TreeView,
)
    requires
        v.agrees(tree),
        written.leaves.len() == tree.leaves.len(),
        forall|i: nat|
            i < tree.leaves.len() && #[trigger] v.supplied(i) ==> leaves.contains_key(
                v.node_of(i) as usize,
            ) && leaves[v.node_of(i) as usize] == written.leaves[i as int],
        forall|i: nat|
            i < tree.leaves.len() && !#[trigger] v.supplied(i) ==> written.leaves[i as int]
                == tree.leaves[i as int],
    ensures
        (PartialView { leaves, ..v }).agrees(written),
{
    let w = PartialView { leaves, ..v };
    assert forall|n: usize| w.path.contains(n) implies #[trigger] w.node_agrees(written, 0, n) by {
        assert(v.node_agrees(tree, 0, n));
        if n < w.capacity {
            assert(v.has((2 * n) as nat) && v.has((2 * n + 1) as nat));
        } else {
            assert(v.supplied((n - v.capacity) as nat));
        }
    }
    assert forall|n: usize| #[trigger] w.siblings.contains_key(n) implies 1 <= n < 2 * w.capacity
        && (w.path.contains(n) || w.siblings[n] == node_value(written.leaves, n as nat)) by {
        assert(v.siblings.contains_key(n));
        if !v.path.contains(n) {
            assert forall|i: int|
                0 <= i < tree.leaves.len() && #[trigger] is_ancestor(
                    n as nat,
                    (tree.leaves.len() + i) as nat,
                ) implies tree.leaves[i] == written.leaves[i] by {
                if v.supplied(i as nat) {
                    lemma_ancestors_on_path(v, tree, n as nat, v.node_of(i as nat));
                }
            }
            lemma_same_below(tree.leaves, written.leaves, n as nat);
        }
    }
}

/// The part of a page tree that supplied pages and their paths reveal.
///
/// Enough to recompute the root after writing to a supplied page, and nothing more.
#[derive(Debug)]
pub struct PartialTree {
    pages: usize,
    capacity: usize,
    /// Hashes of the supplied leaves, by node index.
    leaves: BTreeMap<usize, Hash>,
    /// Hashes the supplied paths revealed, by node index.
    siblings: BTreeMap<usize, Hash>,
    /// The supplied leaves and everything above them.
    path: BTreeSet<usize>,
}

impl View for PartialTree {
    type V = PartialView;

    closed spec fn view(&self) -> PartialView {
        PartialView {
            pages: self.pages as nat,
            capacity: self.capacity as nat,
            leaves: self.leaves@,
            siblings: self.siblings@,
            path: self.path@,
        }
    }
}

impl PartialTree {
    /// The leaf count is the page count's.
    pub closed spec fn wf(&self) -> bool {
        &&& self.capacity == capacity_for(self.pages as nat)
        &&& self.pages <= self.capacity
        &&& 2 * self.capacity <= usize::MAX
        &&& is_power_of_two(self.capacity as nat)
        &&& self.capacity >= 2
    }

    /// What a well-formed partial tree's sizes are.
    pub proof fn lemma_wf(&self)
        requires
            self.wf(),
        ensures
            self@.capacity == capacity_for(self@.pages),
            self@.pages <= self@.capacity,
            2 * self@.capacity <= usize::MAX,
            is_power_of_two(self@.capacity),
            self@.capacity >= 2,
    {
    }

    /// A tree over `pages` pages about which nothing is known.
    #[must_use]
    pub fn new(pages: usize) -> (r: Self)
        requires
            pages <= max_tree_pages(),
        ensures
            r.wf(),
            r@ == PartialView::unknown(pages as nat),
    {
        proof {
            lemma_capacity(pages as nat);
            lemma_capacity_fits(pages as nat);
        }
        let capacity: usize = rounded_capacity(pages);
        PartialTree {
            pages,
            capacity,
            leaves: BTreeMap::new(),
            siblings: BTreeMap::new(),
            path: BTreeSet::new(),
        }
    }

    /// Learn a page and the path above it.
    ///
    /// Whether the path binds the page to a root is [`verify`]'s to say; this only needs one
    /// hash per level.
    pub fn insert(&mut self, index: usize, page: &[u8], path: &[Hash]) -> (r: Result<
        (),
        PartialError,
    >)
        requires
            old(self).wf(),
        ensures
            final(self).wf(),
            r == (if index >= old(self)@.pages {
                Err(PartialError::OutOfRange { index, pages: old(self)@.pages as usize })
            } else if page@.len() != PAGE_SIZE {
                Err(PartialError::WrongSize { got: page@.len() as usize })
            } else if path@.len() != levels(old(self)@.capacity) {
                Err(PartialError::WrongPathLength { got: path@.len() as usize })
            } else {
                Ok(())
            }),
            r is Ok ==> final(self)@ == old(self)@.with_supplied(index as nat, page@, path@),
            r is Err ==> final(self)@ == old(self)@,
    {
        broadcast use vstd::std_specs::btree::group_btree_axioms;

        if index >= self.pages {
            return Err(PartialError::OutOfRange { index, pages: self.pages });
        }
        if page.len() != PAGE_SIZE {
            return Err(PartialError::WrongSize { got: page.len() });
        }
        if !self.has_depth(path.len()) {
            return Err(PartialError::WrongPathLength { got: path.len() });
        }
        let h: Hash = hash_leaf(page);
        let mut node: usize = self.capacity + index;
        let ghost whole = self@.with_supplied(index as nat, page@, path@);
        self.leaves.insert(node, h);
        let mut k: usize = 0;
        assert(path@.skip(0) =~= path@);
        proof {
            lemma_levels(self.capacity as nat, index as nat);
        }
        while node > 1
            invariant
                self.wf(),
                old(self).pages == self.pages,
                1 <= node < 2 * self.capacity,
                k + node_levels(node as nat) == path@.len(),
                self@.with_path(node as nat, path@.skip(k as int)) == whole,
            decreases node,
        {
            let other: usize = if node % 2 == 0 {
                node + 1
            } else {
                node - 1
            };
            let ghost before = self@;
            self.path.insert(node);
            self.siblings.insert(other, path[k]);
            proof {
                assert(path@.skip(k as int).drop_first() =~= path@.skip(k + 1));
                assert(self@ == (PartialView {
                    path: before.path.insert(node as usize),
                    siblings: before.siblings.insert(other, path@[k as int]),
                    ..before
                }));
            }
            node = node / 2;
            k = k + 1;
        }
        self.path.insert(1);
        Ok(())
    }

    /// Is this the number of levels above a leaf?
    fn has_depth(&self, n: usize) -> (r: bool)
        requires
            self.wf(),
        ensures
            r == (n == levels(self.capacity as nat)),
    {
        let mut c: usize = self.capacity;
        let mut left: usize = n;
        while c > 1
            invariant
                c >= 1,
                left + levels(self.capacity as nat) == n + levels(c as nat),
            decreases c,
        {
            if left == 0 {
                return false;
            }
            left = left - 1;
            c = c / 2;
        }
        left == 0
    }

    /// Replace a page that was supplied.
    pub fn set_page(&mut self, index: usize, page: &[u8]) -> (r: Result<(), PartialError>)
        requires
            old(self).wf(),
        ensures
            final(self).wf(),
            r == (if index >= old(self)@.pages {
                Err(PartialError::OutOfRange { index, pages: old(self)@.pages as usize })
            } else if page@.len() != PAGE_SIZE {
                Err(PartialError::WrongSize { got: page@.len() as usize })
            } else if !old(self)@.supplied(index as nat) {
                Err(PartialError::NotSupplied { index })
            } else {
                Ok(())
            }),
            r is Ok ==> final(self)@ == old(self)@.with_page(index as nat, page@),
            r is Err ==> final(self)@ == old(self)@,
    {
        broadcast use vstd::std_specs::btree::group_btree_axioms;

        if index >= self.pages {
            return Err(PartialError::OutOfRange { index, pages: self.pages });
        }
        if page.len() != PAGE_SIZE {
            return Err(PartialError::WrongSize { got: page.len() });
        }
        let node: usize = self.capacity + index;
        if !self.path.contains(&node) {
            return Err(PartialError::NotSupplied { index });
        }
        let h: Hash = hash_leaf(page);
        self.leaves.insert(node, h);
        Ok(())
    }

    /// The root, if what is known determines it.
    pub fn root(&self) -> (r: Option<Hash>)
        requires
            self.wf(),
        ensures
            r == self@.root(),
    {
        self.known(1)
    }

    /// The hash of a node, if what is known determines it.
    fn known(&self, node: usize) -> (r: Option<Hash>)
        requires
            self.wf(),
            1 <= node < 2 * self.capacity,
        ensures
            r == self@.known(node as nat),
        decreases 2 * self.capacity - node,
    {
        broadcast use vstd::std_specs::btree::group_btree_axioms;

        if !self.path.contains(&node) {
            return match self.siblings.get(&node) {
                Some(h) => Some(*h),
                None => None,
            };
        }
        if node >= self.capacity {
            return match self.leaves.get(&node) {
                Some(h) => Some(*h),
                None => None,
            };
        }
        match (self.known(2 * node), self.known(2 * node + 1)) {
            (Some(left), Some(right)) => Some(hash_node(&left, &right)),
            _ => None,
        }
    }
}

/// How many steps of halving lead from a node to the root.
spec fn node_levels(node: nat) -> nat
    decreases node,
{
    if node <= 1 {
        0
    } else {
        1 + node_levels(node / 2)
    }
}

proof fn lemma_levels(width: nat, position: nat)
    requires
        is_power_of_two(width),
        position < width,
    ensures
        node_levels(width + position) == levels(width),
    decreases width,
{
    if width > 1 {
        assert((width + position) / 2 == width / 2 + position / 2);
        lemma_levels(width / 2, position / 2);
    }
}

/// A copy of a sequence of hashes.
pub fn copy_hashes(v: &Vec<Hash>) -> (r: Vec<Hash>)
    ensures
        r@ == v@,
{
    let mut r: Vec<Hash> = Vec::new();
    let mut i: usize = 0;
    while i < v.len()
        invariant
            i <= v@.len(),
            r@ == v@.take(i as int),
        decreases v@.len() - i,
    {
        r.push(v[i]);
        assert(v@.take(i + 1) =~= v@.take(i as int).push(v@[i as int]));
        i = i + 1;
    }
    assert(v@.take(i as int) =~= v@);
    r
}

impl Clone for PageTree {
    fn clone(&self) -> (r: Self)
        ensures
            r@ == self@,
            self.wf() ==> r.wf(),
    {
        let nodes: Vec<Hash> = copy_hashes(&self.nodes);
        let dirty: BTreeSet<usize> = self.dirty.clone();
        PageTree { pages: self.pages, capacity: self.capacity, nodes, dirty }
    }
}

impl Clone for PartialTree {
    fn clone(&self) -> (r: Self)
        ensures
            r@ == self@,
            self.wf() ==> r.wf(),
    {
        PartialTree {
            pages: self.pages,
            capacity: self.capacity,
            leaves: self.leaves.clone(),
            siblings: self.siblings.clone(),
            path: self.path.clone(),
        }
    }
}

} // verus!
