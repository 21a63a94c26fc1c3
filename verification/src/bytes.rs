//! Big-endian byte-order arithmetic.
//!
//! The frame header carries extended payload lengths as 2- or 8-byte
//! big-endian integers. `to_be` and `from_be` are the two directions of
//! that encoding, and the lemmas here show they are inverse to each other
//! for values that fit.

use vstd::prelude::*;

verus! {

/// 256 raised to the power `k`: the number of values a `k`-byte field can hold.
pub open spec fn pow256(k: nat) -> nat
    decreases k,
{
    if k == 0 {
        1
    } else {
        256 * pow256((k - 1) as nat)
    }
}

/// The powers of 256 up to the 8-byte field, written out.
pub proof fn lemma_pow256_small()
    ensures
        pow256(0) == 1,
        pow256(1) == 0x100,
        pow256(2) == 0x10000,
        pow256(3) == 0x100_0000,
        pow256(4) == 0x1_0000_0000,
        pow256(5) == 0x100_0000_0000,
        pow256(6) == 0x1_0000_0000_0000,
        pow256(7) == 0x100_0000_0000_0000,
        pow256(8) == 0x1_0000_0000_0000_0000,
{
    assert(pow256(0) == 1);
    assert(pow256(1) == 0x100);
    assert(pow256(2) == 0x10000);
    assert(pow256(3) == 0x100_0000);
    assert(pow256(4) == 0x1_0000_0000);
    assert(pow256(5) == 0x100_0000_0000);
    assert(pow256(6) == 0x1_0000_0000_0000);
    assert(pow256(7) == 0x100_0000_0000_0000);
    assert(pow256(8) == 0x1_0000_0000_0000_0000);
}

pub proof fn lemma_pow256_increases(a: nat, b: nat)
    requires
        a <= b,
    ensures
        pow256(a) <= pow256(b),
    decreases b,
{
    if a < b {
        lemma_pow256_increases(a, (b - 1) as nat);
    }
}

/// The value of `s` read as a big-endian unsigned integer.
pub open spec fn from_be(s: Seq<u8>) -> nat
    decreases s.len(),
{
    if s.len() == 0 {
        0
    } else {
        (from_be(s.drop_last()) * 256 + s.last()) as nat
    }
}

/// The `k`-byte big-endian representation of `n`.
pub open spec fn to_be(n: nat, k: nat) -> Seq<u8>
    decreases k,
{
    if k == 0 {
        Seq::empty()
    } else {
        to_be(n / 256, (k - 1) as nat) + seq![(n % 256) as u8]
    }
}

/// A two-byte field read out.
pub proof fn lemma_from_be_2(s: Seq<u8>)
    requires
        s.len() == 2,
    ensures
        from_be(s) == s[0] * 256 + s[1],
{
    let s1 = s.drop_last();
    assert(s1.drop_last() =~= Seq::<u8>::empty());
    assert(from_be(s1.drop_last()) == 0);
    assert(from_be(s1) == from_be(s1.drop_last()) * 256 + s1.last());
    assert(from_be(s) == from_be(s1) * 256 + s.last());
    assert(s1.last() == s[0]);
    assert(s.last() == s[1]);
}

/// The two-byte representation written out.
pub proof fn lemma_to_be_2(n: nat)
    ensures
        to_be(n, 2) == seq![((n / 256) % 256) as u8, (n % 256) as u8],
{
    assert(to_be(n / 256 / 256, 0) == Seq::<u8>::empty());
    assert(to_be(n / 256, 1) == to_be(n / 256 / 256, 0) + seq![((n / 256) % 256) as u8]);
    assert(to_be(n, 2) == to_be(n / 256, 1) + seq![(n % 256) as u8]);
    assert(to_be(n, 2) =~= seq![((n / 256) % 256) as u8, (n % 256) as u8]);
}

pub proof fn lemma_to_be_len(n: nat, k: nat)
    ensures
        to_be(n, k).len() == k,
    decreases k,
{
    if k > 0 {
        lemma_to_be_len(n / 256, (k - 1) as nat);
    }
}

/// A `k`-byte field reads back as a value below `256^k`.
pub proof fn lemma_from_be_bound(s: Seq<u8>)
    ensures
        from_be(s) < pow256(s.len()),
    decreases s.len(),
{
    if s.len() > 0 {
        lemma_from_be_bound(s.drop_last());
        let prefix = from_be(s.drop_last());
        assert(prefix < pow256((s.len() - 1) as nat));
        assert(prefix * 256 + s.last() < 256 * pow256((s.len() - 1) as nat)) by (nonlinear_arith)
            requires
                prefix < pow256((s.len() - 1) as nat),
                s.last() < 256,
        ;
    }
}

/// Writing a value below `256^k` as `k` big-endian bytes and reading it
/// back gives the value.
pub proof fn lemma_from_be_to_be(n: nat, k: nat)
    requires
        n < pow256(k),
    ensures
        from_be(to_be(n, k)) == n,
    decreases k,
{
    if k == 0 {
        assert(to_be(n, k) == Seq::<u8>::empty());
    } else {
        lemma_to_be_len(n / 256, (k - 1) as nat);
        assert(n / 256 < pow256((k - 1) as nat)) by (nonlinear_arith)
            requires
                n < 256 * pow256((k - 1) as nat),
        ;
        lemma_from_be_to_be(n / 256, (k - 1) as nat);
        let s = to_be(n, k);
        assert(s.drop_last() =~= to_be(n / 256, (k - 1) as nat));
        assert(s.last() == (n % 256) as u8);
        assert(from_be(s) == (n / 256) * 256 + n % 256);
        assert((n / 256) * 256 + n % 256 == n) by (nonlinear_arith);
    }
}

} // verus!
