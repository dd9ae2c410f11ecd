//! Reduced offsets in classes: a class number and a few extra bits, more of
//! them the further back the offset reaches.
use vstd::arithmetic::power2::{lemma2_to64, lemma_pow2_unfold, pow2};
use vstd::prelude::*;

use crate::consts::{LZ_MF_BUCKET_ITEM_SIZE, LZ_ROID_SIZE};

verus! {

/// The number of extra bits of the class `roid`.
pub open spec fn roid_bitlen(roid: int) -> nat {
    (roid / 2) as nat
}

/// The smallest reduced offset of the class `roid`.
pub open spec fn roid_base(roid: int) -> int {
    if roid % 2 == 0 {
        2 * pow2((roid / 2) as nat) - 2
    } else {
        3 * pow2((roid / 2) as nat) - 2
    }
}

/// The class of the reduced offset, when it is none of those before `from`.
pub open spec fn roid_from(reduced_offset: int, from: int) -> int
    decreases LZ_ROID_SIZE - from,
{
    if from >= LZ_ROID_SIZE - 1 || reduced_offset < roid_base(from + 1) {
        from
    } else {
        roid_from(reduced_offset, from + 1)
    }
}

/// The class of the reduced offset.
pub open spec fn roid_of(reduced_offset: int) -> int {
    roid_from(reduced_offset, 0)
}

/// The classes follow each other from zero on. Two and two of them have the same
/// number of extra bits, one more than the two before, and together they hold
/// all reduced offsets.
pub proof fn law_roid_classes(roid: int)
    requires
        0 <= roid,
    ensures
        roid_base(0) == 0,
        roid_base(roid + 1) == roid_base(roid) + pow2((roid / 2) as nat),
        roid_bitlen(roid) == roid / 2,
        roid_base(22) == 4094,
{
    lemma_roid_base_step(roid);
}

proof fn lemma_roid_base_step(roid: int)
    requires
        0 <= roid,
    ensures
        roid_base(roid + 1) == roid_base(roid) + pow2(roid_bitlen(roid)),
        roid_base(0) == 0,
        roid_base(LZ_ROID_SIZE as int) == LZ_MF_BUCKET_ITEM_SIZE,
{
    lemma2_to64();
    if roid % 2 == 1 {
        assert((roid + 1) / 2 == roid / 2 + 1);
        lemma_pow2_unfold(((roid + 1) / 2) as nat);
    } else {
        assert((roid + 1) / 2 == roid / 2);
    }
    assert(pow2(11) == 2048);
}

proof fn lemma_roid_from(reduced_offset: int, from: int)
    requires
        0 <= from < LZ_ROID_SIZE,
        roid_base(from) <= reduced_offset < LZ_MF_BUCKET_ITEM_SIZE,
    ensures
        from <= roid_from(reduced_offset, from) < LZ_ROID_SIZE,
        0 <= reduced_offset - roid_base(roid_from(reduced_offset, from)) < pow2(
            roid_bitlen(roid_from(reduced_offset, from)),
        ),
    decreases LZ_ROID_SIZE - from,
{
    lemma_roid_base_step(from);
    if !(from >= LZ_ROID_SIZE - 1 || reduced_offset < roid_base(from + 1)) {
        lemma_roid_from(reduced_offset, from + 1);
    }
}

/// Every reduced offset is its class base plus what its extra bits can hold.
pub proof fn law_roid_covers(reduced_offset: int)
    requires
        0 <= reduced_offset < LZ_MF_BUCKET_ITEM_SIZE,
    ensures
        0 <= roid_of(reduced_offset) < LZ_ROID_SIZE,
        0 <= reduced_offset - roid_base(roid_of(reduced_offset)) < pow2(
            roid_bitlen(roid_of(reduced_offset)),
        ),
        roid_bitlen(roid_of(reduced_offset)) <= 10,
{
    lemma_roid_base_step(0);
    lemma_roid_from(reduced_offset, 0);
}

/// Class base and extra bits never leave the range of reduced offsets.
pub proof fn lemma_roid_in_range(roid: int, extra: int)
    requires
        0 <= roid < LZ_ROID_SIZE,
        0 <= extra < pow2(roid_bitlen(roid)),
    ensures
        0 <= roid_base(roid) + extra < LZ_MF_BUCKET_ITEM_SIZE,
        roid_bitlen(roid) <= 10,
{
    lemma_roid_base_step(roid);
    lemma_roid_bases_grow(0, roid);
    lemma_roid_bases_grow(roid + 1, LZ_ROID_SIZE as int);
}

proof fn lemma_roid_bases_grow(a: int, b: int)
    requires
        0 <= a <= b,
    ensures
        roid_base(a) <= roid_base(b),
    decreases b - a,
{
    if a < b {
        lemma_roid_base_step(b - 1);
        lemma_roid_bases_grow(a, b - 1);
    }
    lemma_roid_base_step(0);
}

/// The base and the number of extra bits of the class `roid`.
pub fn roid_decode(roid: u8) -> (r: (u16, u8))
    requires
        roid < LZ_ROID_SIZE,
    ensures
        r.0 == roid_base(roid as int),
        r.1 == roid_bitlen(roid as int),
        r.1 <= 10,
{
    let bitlen: u8 = roid / 2;
    let w: u16 = 1u16 << (bitlen as u16);
    proof {
        lemma2_to64();
        vstd::arithmetic::power2::lemma_pow2_strictly_increases(bitlen as nat, 11);
        vstd::bits::lemma_u16_shl_is_mul(1, bitlen as u16);
        vstd::arithmetic::power2::lemma_pow2_pos(bitlen as nat);
    }
    let base: u16 = if roid % 2 == 0 {
        2 * w - 2
    } else {
        3 * w - 2
    };
    (base, bitlen)
}

/// The class, the number of extra bits and the extra bits of a reduced offset.
pub fn roid_encode(reduced_offset: u16) -> (r: (u8, u8, u16))
    requires
        reduced_offset < LZ_MF_BUCKET_ITEM_SIZE,
    ensures
        r.0 == roid_of(reduced_offset as int),
        r.1 == roid_bitlen(r.0 as int),
        r.2 == reduced_offset - roid_base(r.0 as int),
        r.0 < LZ_ROID_SIZE,
        r.1 <= 10,
        r.2 < pow2(r.1 as nat),
{
    let mut roid: u8 = 0;
    while roid < LZ_ROID_SIZE as u8 - 1 && reduced_offset >= roid_decode(roid + 1).0
        invariant
            roid < LZ_ROID_SIZE,
            roid_of(reduced_offset as int) == roid_from(reduced_offset as int, roid as int),
        decreases LZ_ROID_SIZE - roid,
    {
        roid = roid + 1;
    }
    let (base, bitlen) = roid_decode(roid);
    proof {
        law_roid_covers(reduced_offset as int);
    }
    (roid, bitlen, reduced_offset - base)
}

} // verus!
