//! The hash function every commitment is built on.
use vstd::prelude::*;

verus! {

/// A 256-bit hash.
pub type Digest = [u8; 32];

/// The BLAKE3 hash of a byte string, in its default unkeyed mode with 32 bytes of output.
pub uninterp spec fn blake3_digest(data: Seq<u8>) -> [u8; 32];

/// `blake3::hash`: the 32-byte digest, a function of the bytes alone.
#[verifier::external_body]
pub(crate) fn blake3_hash(data: &[u8]) -> (r: [u8; 32])
    ensures
        r == blake3_digest(data@),
{
    *blake3::hash(data).as_bytes()
}

/// Two different byte strings with one digest.
pub open spec fn is_collision(a: Seq<u8>, b: Seq<u8>) -> bool {
    a != b && blake3_digest(a) == blake3_digest(b)
}

/// Two of these byte strings are different and have one digest.
///
/// What a commitment binds, it binds up to this. The laws of this crate say that two different
/// things with one root are a collision among the byte strings that were hashed for them.
pub open spec fn collision_among(inputs: Set<Seq<u8>>) -> bool {
    exists|a: Seq<u8>, b: Seq<u8>|
        inputs.contains(a) && inputs.contains(b) && #[trigger] is_collision(a, b)
}

/// Equal digests of two byte strings that do not collide mean that the strings are equal.
pub proof fn lemma_digest_binds(inputs: Set<Seq<u8>>, a: Seq<u8>, b: Seq<u8>)
    requires
        blake3_digest(a) == blake3_digest(b),
        inputs.contains(a),
        inputs.contains(b),
    ensures
        a == b || collision_among(inputs),
{
    if a != b {
        assert(is_collision(a, b));
    }
}

/// A collision among some byte strings is one among more of them.
pub proof fn lemma_collision_grows(few: Set<Seq<u8>>, many: Set<Seq<u8>>)
    requires
        collision_among(few),
        few.subset_of(many),
    ensures
        collision_among(many),
{
    let (a, b) = choose|a: Seq<u8>, b: Seq<u8>|
        few.contains(a) && few.contains(b) && #[trigger] is_collision(a, b);
    assert(many.contains(a) && many.contains(b));
}

/// Compare two digests.
pub fn same_hash(a: &[u8; 32], b: &[u8; 32]) -> (r: bool)
    ensures
        r == (*a == *b),
{
    let mut i: usize = 0;
    while i < 32
        invariant
            i <= 32,
            forall|j: int| 0 <= j < i ==> a@[j] == b@[j],
        decreases 32 - i,
    {
        if a[i] != b[i] {
            assert(a@[i as int] != b@[i as int]);
            return false;
        }
        i = i + 1;
    }
    assert(*a =~= *b);
    true
}

/// Compare two optional digests.
pub fn same_optional_hash(a: &Option<[u8; 32]>, b: &Option<[u8; 32]>) -> (r: bool)
    ensures
        r == (*a == *b),
{
    match (a, b) {
        (Some(x), Some(y)) => same_hash(x, y),
        (None, None) => true,
        _ => false,
    }
}

} // verus!
