//! Bit-level reasoning about 64-bit fingerprints.
//!
//! Descent through the trie consumes the fingerprint one bit per level, so
//! every fact about paths reduces to a fact about the low `d` bits of a word.

use vstd::prelude::*;

verus! {

/// The mask selecting the low `d` bits of a 64-bit fingerprint.
pub open spec fn mask(d: nat) -> u64 {
    if d >= 64 {
        0xffff_ffff_ffff_ffffu64
    } else {
        !(0xffff_ffff_ffff_ffffu64 << d as u64)
    }
}

/// The low `d` bits of `k`: the descent path of `k` down to level `d`.
pub open spec fn low(k: u64, d: nat) -> u64 {
    k & mask(d)
}

/// The bit of `k` consumed at level `d`: which child the descent takes.
pub open spec fn bit_at(k: u64, d: nat) -> u64 {
    (k >> d as u64) & 1
}

/// A path that fits in `d` bits keeps fitting in `d + 1` bits.
pub proof fn lemma_fits_step(p: u64, d: nat)
    requires
        d < 64,
        p & mask(d) == p,
    ensures
        p & mask(d + 1) == p,
{
    let du = d as u64;
    if d < 63 {
        assert(p & !(0xffff_ffff_ffff_ffffu64 << du) == p ==> p & !(0xffff_ffff_ffff_ffffu64 << ((du + 1) as u64)) == p) by (bit_vector)
            requires du < 63;
    } else {
        assert(p & 0xffff_ffff_ffff_ffffu64 == p) by (bit_vector);
    }
}

/// Masking to `d` bits after masking to `d + 1` bits is masking to `d` bits.
pub proof fn lemma_mask_nest(k: u64, d: nat)
    requires
        d < 64,
    ensures
        (k & mask(d + 1)) & mask(d) == k & mask(d),
{
    let du = d as u64;
    if d < 63 {
        assert((k & !(0xffff_ffff_ffff_ffffu64 << ((du + 1) as u64))) & !(0xffff_ffff_ffff_ffffu64 << du) == k & !(0xffff_ffff_ffff_ffffu64 << du)) by (bit_vector)
            requires du < 63;
    } else {
        assert((k & 0xffff_ffff_ffff_ffffu64) & !(0xffff_ffff_ffff_ffffu64 << 63u64) == k & !(0xffff_ffff_ffff_ffffu64 << 63u64)) by (bit_vector);
    }
}

/// The whole 64-bit path determines the fingerprint.
pub proof fn lemma_low_all(k: u64)
    ensures
        low(k, 64) == k,
{
    assert(k & 0xffff_ffff_ffff_ffffu64 == k) by (bit_vector);
}

/// Taking the child on the zero side leaves the path unchanged.
pub proof fn lemma_path_left(k: u64, d: nat)
    requires
        d < 64,
        bit_at(k, d) == 0,
    ensures
        low(k, d + 1) == low(k, d),
{
    let du = d as u64;
    if d < 63 {
        assert((k >> du) & 1 == 0 ==> k & !(0xffff_ffff_ffff_ffffu64 << ((du + 1) as u64)) == k & !(0xffff_ffff_ffff_ffffu64 << du))
            by (bit_vector)
            requires du < 63;
    } else {
        assert((k >> 63u64) & 1 == 0 ==> k & 0xffff_ffff_ffff_ffffu64 == k & !(0xffff_ffff_ffff_ffffu64 << 63u64)) by (bit_vector);
    }
}

/// Taking the child on the one side extends the path by the level's bit.
pub proof fn lemma_path_right(k: u64, d: nat)
    requires
        d < 64,
        bit_at(k, d) == 1,
    ensures
        low(k, d + 1) == low(k, d) | (1u64 << d as u64),
{
    let du = d as u64;
    if d < 63 {
        assert((k >> du) & 1 == 1 ==> k & !(0xffff_ffff_ffff_ffffu64 << ((du + 1) as u64)) == (k & !(0xffff_ffff_ffff_ffffu64 << du)) | (1u64
            << du)) by (bit_vector)
            requires du < 63;
    } else {
        assert((k >> 63u64) & 1 == 1 ==> k & 0xffff_ffff_ffff_ffffu64 == (k & !(0xffff_ffff_ffff_ffffu64 << 63u64)) | (1u64 << 63u64))
            by (bit_vector);
    }
}

/// The two child paths below one interior point are distinct, and each
/// shortens back to the parent's path.
pub proof fn lemma_child_paths(p: u64, d: nat)
    requires
        d < 64,
        p & mask(d) == p,
    ensures
        (p | (1u64 << d as u64)) != p,
        (p | (1u64 << d as u64)) & mask(d + 1) == (p | (1u64 << d as u64)),
        (p | (1u64 << d as u64)) & mask(d) == p,
{
    let du = d as u64;
    assert((p & !(0xffff_ffff_ffff_ffffu64 << du) == p && du < 64) ==> (p | (1u64 << du)) != p && (p | (1u64 << du)) & !(0xffff_ffff_ffff_ffffu64
        << du) == p) by (bit_vector);
    if d < 63 {
        assert((p & !(0xffff_ffff_ffff_ffffu64 << du) == p && du < 63) ==> (p | (1u64 << du)) & !(0xffff_ffff_ffff_ffffu64 << ((du + 1) as u64))
            == (p | (1u64 << du))) by (bit_vector);
    } else {
        assert((p | (1u64 << 63u64)) & 0xffff_ffff_ffff_ffffu64 == (p | (1u64 << 63u64)))
            by (bit_vector);
    }
}

/// The descent consumes one bit per level: it is zero or one.
pub proof fn lemma_bit_cases(k: u64, d: nat)
    requires
        d < 64,
    ensures
        bit_at(k, d) == 0 || bit_at(k, d) == 1,
{
    let du = d as u64;
    assert((k >> du) & 1 == 0 || (k >> du) & 1 == 1) by (bit_vector);
}

/// At the root the path is empty: every fingerprint starts from zero.
pub proof fn lemma_low_zero(k: u64)
    ensures
        low(k, 0) == 0,
{
    assert(k & !(0xffff_ffff_ffff_ffffu64 << 0u64) == 0) by (bit_vector);
}

} // verus!
