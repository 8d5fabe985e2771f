//! Little-endian integers and fixed-width sequences as bytes.
//!
//! Commitments and the wire format are both concatenations of little-endian integers and
//! fixed-width records. This module says what those bytes are, writes and reads them, and shows
//! that reading gives back what was written.
use vstd::prelude::*;

verus! {

/// `256^n`.
pub open spec fn pow256(n: nat) -> nat
    decreases n,
{
    if n == 0 {
        1
    } else {
        256 * pow256((n - 1) as nat)
    }
}

/// The low `n` bytes of `x`, least significant first.
pub open spec fn le_bytes(x: nat, n: nat) -> Seq<u8>
    decreases n,
{
    if n == 0 {
        Seq::empty()
    } else {
        seq![(x % 256) as u8] + le_bytes(x / 256, (n - 1) as nat)
    }
}

/// The integer a sequence of bytes spells, least significant first.
pub open spec fn le_value(s: Seq<u8>) -> nat
    decreases s.len(),
{
    if s.len() == 0 {
        0
    } else {
        s[0] as nat + 256 * le_value(s.drop_first())
    }
}

pub proof fn lemma_le_bytes_len(x: nat, n: nat)
    ensures
        le_bytes(x, n).len() == n,
    decreases n,
{
    if n > 0 {
        lemma_le_bytes_len(x / 256, (n - 1) as nat);
    }
}

pub proof fn lemma_le_value_bound(s: Seq<u8>)
    ensures
        le_value(s) < pow256(s.len()),
    decreases s.len(),
{
    if s.len() > 0 {
        lemma_le_value_bound(s.drop_first());
    }
}

/// Reading back the bytes of a number that fits gives the number.
pub proof fn lemma_le_value_of_bytes(x: nat, n: nat)
    requires
        x < pow256(n),
    ensures
        le_value(le_bytes(x, n)) == x,
    decreases n,
{
    lemma_le_bytes_len(x, n);
    if n > 0 {
        let m = (n - 1) as nat;
        assert(x / 256 < pow256(m));
        lemma_le_value_of_bytes(x / 256, m);
        assert(le_bytes(x, n).drop_first() =~= le_bytes(x / 256, m));
        assert(le_bytes(x, n)[0] == (x % 256) as u8);
    }
}

/// Reading so many bytes gives the number that they have room for.
pub proof fn lemma_le_value_of_low_bytes(x: nat, n: nat)
    ensures
        le_value(le_bytes(x, n)) == x % pow256(n),
    decreases n,
{
    lemma_le_bytes_len(x, n);
    lemma_pow256_monotone(0, n);
    if n > 0 {
        let m = (n - 1) as nat;
        lemma_pow256_monotone(0, m);
        lemma_le_value_of_low_bytes(x / 256, m);
        assert(le_bytes(x, n).drop_first() =~= le_bytes(x / 256, m));
        assert(le_bytes(x, n)[0] == (x % 256) as u8);
        vstd::arithmetic::div_mod::lemma_mod_breakdown(x as int, 256, pow256(m) as int);
    }
}

/// Writing the number that bytes spell gives back the bytes.
pub proof fn lemma_le_bytes_of_value(s: Seq<u8>)
    ensures
        le_bytes(le_value(s), s.len()) == s,
    decreases s.len(),
{
    if s.len() > 0 {
        let rest = s.drop_first();
        lemma_le_bytes_of_value(rest);
        let x = le_value(s);
        assert(x % 256 == s[0] as nat);
        assert(x / 256 == le_value(rest));
        assert(le_bytes(x, s.len()) =~= s);
    } else {
        assert(le_bytes(le_value(s), s.len()) =~= s);
    }
}

/// Numbers that fit and spell the same bytes are the same number.
pub proof fn lemma_le_bytes_injective(x: nat, y: nat, n: nat)
    requires
        x < pow256(n),
        y < pow256(n),
        le_bytes(x, n) == le_bytes(y, n),
    ensures
        x == y,
{
    lemma_le_value_of_bytes(x, n);
    lemma_le_value_of_bytes(y, n);
}

pub proof fn lemma_pow256_values()
    ensures
        pow256(0) == 1,
        pow256(1) == 0x100,
        pow256(2) == 0x1_0000,
        pow256(4) == 0x1_0000_0000,
        pow256(8) == 0x1_0000_0000_0000_0000,
{
    reveal_with_fuel(pow256, 9);
}

/// Append the low `n` bytes of `x`, least significant first.
pub fn put_le(out: &mut Vec<u8>, x: u64, n: usize)
    ensures
        final(out)@ == old(out)@ + le_bytes(x as nat, n as nat),
{
    let mut rest: u64 = x;
    let mut left: usize = n;
    let ghost before = out@;
    assert(out@ + le_bytes(x as nat, n as nat) =~= before + le_bytes(x as nat, n as nat));
    while left > 0
        invariant
            out@ + le_bytes(rest as nat, left as nat) == before + le_bytes(x as nat, n as nat),
        decreases left,
    {
        let ghost prior = out@;
        out.push((rest % 256) as u8);
        assert(out@ + le_bytes(rest as nat / 256, (left - 1) as nat) =~= prior + le_bytes(
            rest as nat,
            left as nat,
        ));
        rest = rest / 256;
        left = left - 1;
    }
    assert(out@ =~= out@ + le_bytes(rest as nat, 0));
}

/// Read `n` bytes starting at `at` as a little-endian integer.
pub fn get_le(bytes: &[u8], at: usize, n: usize) -> (r: u64)
    requires
        at + n <= bytes@.len(),
        n <= 8,
    ensures
        r == le_value(bytes@.subrange(at as int, at + n)),
        r < pow256(n as nat),
{
    let mut value: u64 = 0;
    let mut left: usize = n;
    let len: usize = bytes.len();
    let ghost whole = bytes@.subrange(at as int, at + n);
    proof {
        lemma_pow256_values();
        assert(whole.subrange(n as int, n as int) =~= Seq::<u8>::empty());
    }
    while left > 0
        invariant
            left <= n <= 8,
            at + n <= len == bytes@.len(),
            whole == bytes@.subrange(at as int, at + n),
            value == le_value(whole.subrange(left as int, n as int)),
        decreases left,
    {
        left = left - 1;
        proof {
            let tail = whole.subrange(left as int, n as int);
            assert(tail.drop_first() =~= whole.subrange(left + 1, n as int));
            lemma_le_value_bound(tail);
            lemma_pow256_monotone(tail.len(), 8);
            lemma_pow256_values();
            assert(tail[0] == bytes@[at + left]);
        }
        value = bytes[at + left] as u64 + 256 * value;
    }
    proof {
        assert(whole.subrange(0, n as int) =~= whole);
        lemma_le_value_bound(whole);
    }
    value
}

pub proof fn lemma_pow256_monotone(a: nat, b: nat)
    requires
        a <= b,
    ensures
        pow256(a) <= pow256(b),
        pow256(a) >= 1,
    decreases b,
{
    if b > 0 {
        if a < b {
            lemma_pow256_monotone(a, (b - 1) as nat);
        } else {
            lemma_pow256_monotone((a - 1) as nat, (b - 1) as nat);
        }
    }
}

/// Append a slice.
pub fn put_bytes(out: &mut Vec<u8>, bytes: &[u8])
    ensures
        final(out)@ == old(out)@ + bytes@,
{
    let ghost before = out@;
    out.extend_from_slice(bytes);
    assert(out@ =~= before + bytes@);
}

/// The encodings of all items, one after another.
pub open spec fn concat_all<T>(items: Seq<T>, encode: spec_fn(T) -> Seq<u8>) -> Seq<u8>
    decreases items.len(),
{
    if items.len() == 0 {
        Seq::empty()
    } else {
        concat_all(items.drop_last(), encode) + encode(items.last())
    }
}

/// One more item is one more encoding.
pub proof fn lemma_concat_all_push<T>(items: Seq<T>, n: int, encode: spec_fn(T) -> Seq<u8>)
    requires
        0 <= n < items.len(),
    ensures
        concat_all(items.take(n + 1), encode) == concat_all(items.take(n), encode) + encode(
            items[n],
        ),
{
    assert(items.take(n + 1).drop_last() =~= items.take(n));
}

/// Concatenating two lists one after the other is concatenating both together.
pub proof fn lemma_concat_all_add<T>(a: Seq<T>, b: Seq<T>, encode: spec_fn(T) -> Seq<u8>)
    ensures
        concat_all(a + b, encode) == concat_all(a, encode) + concat_all(b, encode),
    decreases b.len(),
{
    if b.len() == 0 {
        assert(a + b =~= a);
        assert(concat_all(a, encode) + concat_all(b, encode) =~= concat_all(a, encode));
    } else {
        assert((a + b).drop_last() =~= a + b.drop_last());
        lemma_concat_all_add(a, b.drop_last(), encode);
        assert(concat_all(a + b, encode) =~= concat_all(a, encode) + concat_all(b, encode));
    }
}

pub proof fn lemma_concat_all_len<T>(items: Seq<T>, encode: spec_fn(T) -> Seq<u8>, width: nat)
    requires
        forall|t: T| #[trigger] encode(t).len() == width,
    ensures
        concat_all(items, encode).len() == items.len() * width,
    decreases items.len(),
{
    if items.len() > 0 {
        lemma_concat_all_len(items.drop_last(), encode, width);
        assert(items.len() * width == (items.len() - 1) * width + width) by (nonlinear_arith)
            requires
                items.len() > 0,
        ;
    }
}

/// Sequences of equally many fixed-width records with the same bytes have the same records.
pub proof fn lemma_concat_all_injective<T>(
    a: Seq<T>,
    b: Seq<T>,
    encode: spec_fn(T) -> Seq<u8>,
    width: nat,
)
    requires
        a.len() == b.len(),
        forall|t: T| #[trigger] encode(t).len() == width,
        forall|s: T, t: T| #[trigger] encode(s) == #[trigger] encode(t) ==> s == t,
        concat_all(a, encode) == concat_all(b, encode),
    ensures
        a == b,
    decreases a.len(),
{
    if a.len() > 0 {
        let (x, y) = (concat_all(a, encode), concat_all(b, encode));
        let (p, q) = (concat_all(a.drop_last(), encode), concat_all(b.drop_last(), encode));
        lemma_concat_all_len(a.drop_last(), encode, width);
        lemma_concat_all_len(b.drop_last(), encode, width);
        assert(p =~= x.take(p.len() as int));
        assert(q =~= y.take(p.len() as int));
        assert(encode(a.last()) =~= x.skip(p.len() as int));
        assert(encode(b.last()) =~= y.skip(p.len() as int));
        lemma_concat_all_injective(a.drop_last(), b.drop_last(), encode, width);
        assert(a =~= a.drop_last().push(a.last()));
        assert(b =~= b.drop_last().push(b.last()));
    } else {
        assert(a =~= b);
    }
}

/// Equal concatenations with first parts of equal length have equal parts.
pub proof fn lemma_split_equal(a: Seq<u8>, b: Seq<u8>, c: Seq<u8>, d: Seq<u8>)
    requires
        a.len() == c.len(),
        a + b == c + d,
    ensures
        a == c,
        b == d,
{
    assert(a =~= (a + b).take(a.len() as int));
    assert(c =~= (c + d).take(a.len() as int));
    assert(b =~= (a + b).skip(a.len() as int));
    assert(d =~= (c + d).skip(a.len() as int));
}

} // verus!
