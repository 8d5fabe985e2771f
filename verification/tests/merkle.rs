//! The page tree.
use cairn_runtime::merkle::{PAGE_SIZE, PageError, PageTree, hash_leaf, hash_node, verify};

/// A page filled with `byte`, with `marker` written at offset 0 to distinguish pages
/// that would otherwise be identical.
fn page(byte: u8, marker: u8) -> Vec<u8> {
    let mut p = vec![byte; PAGE_SIZE];
    p[0] = marker;
    p
}

#[test]
fn empty_tree_root_is_deterministic() {
    let a = PageTree::new(16).root();
    let b = PageTree::new(16).root();
    assert_eq!(a, b, "two empty trees of the same size must agree");
}

#[test]
fn different_capacities_produce_different_roots() {
    // Trees of different depth cannot collide, because depth changes how many times the
    // zero leaf is folded into the root.
    assert_ne!(PageTree::new(4).root(), PageTree::new(8).root());
}

#[test]
fn page_counts_sharing_a_capacity_do_collide() {
    assert_eq!(PageTree::new(5).root(), PageTree::new(8).root());
}

#[test]
fn writing_a_page_changes_the_root() {
    let mut tree = PageTree::new(8);
    let before = tree.root();
    tree.set_page(3, &page(0, 1)).unwrap();
    assert_ne!(tree.root(), before);
}

#[test]
fn restoring_contents_restores_the_root() {
    // The commitment is a function of state alone. A worker that writes a page and then
    // writes it back must land on exactly the root it started from, or honest workers
    // taking snapshots at different moments would diverge.
    let mut tree = PageTree::new(8);
    let original = tree.root();

    tree.set_page(5, &page(0xAB, 0xCD)).unwrap();
    assert_ne!(tree.root(), original);

    tree.set_page(5, &vec![0u8; PAGE_SIZE]).unwrap();
    assert_eq!(tree.root(), original);
}

#[test]
fn write_order_does_not_affect_the_root() {
    let mut forward = PageTree::new(8);
    for i in 0..8 {
        forward.set_page(i, &page(i as u8, 0xF0)).unwrap();
    }

    let mut reverse = PageTree::new(8);
    for i in (0..8).rev() {
        reverse.set_page(i, &page(i as u8, 0xF0)).unwrap();
    }

    assert_eq!(forward.root(), reverse.root());
}

#[test]
fn incremental_matches_rebuilt_from_scratch() {
    // The incremental path is an optimisation and must be indistinguishable from
    // rebuilding the tree, including after many overwrites of the same page.
    let mut incremental = PageTree::new(16);
    for round in 0..4u8 {
        for i in 0..16 {
            incremental.set_page(i, &page(round, i as u8)).unwrap();
        }
        // Force intermediate recomputation, which a snapshot would also do.
        let _ = incremental.root();
    }

    let mut rebuilt = PageTree::new(16);
    for i in 0..16 {
        rebuilt.set_page(i, &page(3, i as u8)).unwrap();
    }

    assert_eq!(incremental.root(), rebuilt.root());
}

#[test]
fn proofs_verify_for_every_page() {
    let mut tree = PageTree::new(8);
    let pages: Vec<Vec<u8>> = (0..8).map(|i| page(i as u8, 0x11)).collect();
    for (i, p) in pages.iter().enumerate() {
        tree.set_page(i, p).unwrap();
    }

    let root = tree.root();
    for (i, p) in pages.iter().enumerate() {
        let proof = tree.page_proof(i).expect("index is in range");
        assert!(verify(&root, i, p, &proof), "proof failed for page {i}");
    }
}

#[test]
fn proof_rejects_tampered_contents() {
    let mut tree = PageTree::new(8);
    let genuine = page(0x22, 0x33);
    tree.set_page(4, &genuine).unwrap();

    let root = tree.root();
    let proof = tree.page_proof(4).unwrap();

    let mut forged = genuine.clone();
    forged[PAGE_SIZE - 1] ^= 0x01;

    assert!(verify(&root, 4, &genuine, &proof));
    assert!(
        !verify(&root, 4, &forged, &proof),
        "a single flipped bit must invalidate the proof"
    );
}

#[test]
fn proof_rejects_the_wrong_index() {
    let mut tree = PageTree::new(8);
    let p = page(0x44, 0x55);
    tree.set_page(1, &p).unwrap();

    let root = tree.root();
    let proof = tree.page_proof(1).unwrap();

    assert!(verify(&root, 1, &p, &proof));
    assert!(!verify(&root, 2, &p, &proof));
}

#[test]
fn proof_length_is_logarithmic() {
    let mut tree = PageTree::new(1024);
    let proof = tree.page_proof(0).unwrap();
    assert_eq!(proof.len(), 10, "1024 pages is a depth-10 tree");
}

#[test]
fn single_page_memory_is_well_formed() {
    let mut tree = PageTree::new(1);
    let p = page(0x66, 0x77);
    tree.set_page(0, &p).unwrap();

    let root = tree.root();
    let proof = tree.page_proof(0).unwrap();
    assert!(verify(&root, 0, &p, &proof));
}

#[test]
fn rejects_out_of_range_and_wrong_size() {
    let mut tree = PageTree::new(4);

    assert_eq!(
        tree.set_page(4, &vec![0u8; PAGE_SIZE]),
        Err(PageError::OutOfRange { index: 4, pages: 4 })
    );
    assert_eq!(
        tree.set_page(0, &[0u8; 128]),
        Err(PageError::WrongSize { got: 128 })
    );
    assert!(tree.page_proof(4).is_none());
}

#[test]
fn leaf_and_node_hashing_are_domain_separated() {
    // Without domain separation a page whose bytes happen to be two concatenated hashes
    // could be presented as an internal node. Confirm the two hash functions disagree on
    // structurally identical input.
    let left = [0xAAu8; 32];
    let right = [0xBBu8; 32];

    let mut as_page = Vec::with_capacity(64);
    as_page.extend_from_slice(&left);
    as_page.extend_from_slice(&right);

    assert_ne!(hash_leaf(&as_page), hash_node(&left, &right));
}

#[test]
fn an_index_beyond_the_path_names_no_page() {
    let mut tree = PageTree::new(8);
    let mut held = vec![0x44u8; PAGE_SIZE];
    held[0] = 0x55;
    tree.set_page(1, &held).unwrap();
    let path = tree.page_proof(1).unwrap();
    let root = tree.root();
    assert_eq!(path.len(), 3);
    assert!(verify(&root, 1, &held, &path));
    assert!(!verify(&root, 2, &held, &path));
    // One more than the tree has leaves leads the same way up.
    assert!(!verify(&root, 9, &held, &path));
    assert!(!verify(&root, usize::MAX, &held, &path));
}

#[test]
fn pages_written_again_and_out_of_order_are_rehashed_once_each() {
    let mut tree = PageTree::new(6);
    let mut other = PageTree::new(6);
    for index in [5usize, 0, 5, 3, 0] {
        tree.set_page(index, &vec![index as u8 + 1; PAGE_SIZE]).unwrap();
    }
    for index in [0usize, 3, 5] {
        other.set_page(index, &vec![index as u8 + 1; PAGE_SIZE]).unwrap();
        let _ = other.root();
    }
    assert_eq!(tree.root(), other.root());
}
