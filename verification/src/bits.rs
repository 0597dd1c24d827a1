//! Bit-level model of 26-letter masks: single-bit tests, a popcount over the
//! 26 letter positions, and the highest set bit (the "most significant
//! letter" of a word's mask).

use vstd::prelude::*;

verus! {

/// True iff bit `j` of `m` is set, for a letter position `j < 26`.
pub open spec fn bitu(m: u32, j: u32) -> bool {
    j < 26 && (m >> j) & 1u32 == 1u32
}

/// True iff bit `i` of `m` is set, for a letter position `0 <= i < 26`.
pub open spec fn bit(m: u32, i: int) -> bool {
    0 <= i < 26 && bitu(m, i as u32)
}

/// Number of set bits of `m` among positions `0 .. n`.
pub open spec fn pc(m: u32, n: int) -> nat
    decreases n,
{
    if n <= 0 {
        0
    } else {
        pc(m, n - 1) + (if bit(m, n - 1) {
            1nat
        } else {
            0nat
        })
    }
}

/// Number of letters present in the mask `m`.
pub open spec fn popcount26(m: u32) -> nat {
    pc(m, 26)
}

/// Highest set bit of `m` below `n`, or `-1` if there is none.
pub open spec fn msl_below(m: u32, n: int) -> int
    decreases n,
{
    if n <= 0 {
        -1
    } else if bit(m, n - 1) {
        n - 1
    } else {
        msl_below(m, n - 1)
    }
}

/// Highest set letter position of `m` (the most significant letter), `-1`
/// when no letter position is set.
pub open spec fn spec_msl(m: u32) -> int {
    msl_below(m, 26)
}

/// A bit of a union is a bit of one of the parts.
pub proof fn lemma_bit_or(m1: u32, m2: u32)
    ensures
        forall|i: int| #[trigger] bit(m1 | m2, i) <==> bit(m1, i) || bit(m2, i),
{
    assert forall|i: int| #[trigger] bit(m1 | m2, i) <==> bit(m1, i) || bit(m2, i) by {
        if 0 <= i < 26 {
            let j: u32 = i as u32;
            assert(j < 26 ==> (((m1 | m2) >> j) & 1u32 == 1u32 <==> ((m1 >> j) & 1u32 == 1u32)
                || ((m2 >> j) & 1u32 == 1u32))) by (bit_vector);
        }
    }
}

/// Masks with no common set bit share no letter position.
pub proof fn lemma_bit_disjoint(m1: u32, m2: u32)
    requires
        m1 & m2 == 0,
    ensures
        forall|i: int| !(#[trigger] bit(m1, i) && bit(m2, i)),
{
    assert forall|i: int| !(#[trigger] bit(m1, i) && bit(m2, i)) by {
        if 0 <= i < 26 {
            let j: u32 = i as u32;
            assert(m1 & m2 == 0 && j < 26 ==> !((m1 >> j) & 1u32 == 1u32 && (m2 >> j) & 1u32
                == 1u32)) by (bit_vector);
        }
    }
}

/// The single-bit mask `1 << l` has exactly bit `l` set.
pub proof fn lemma_bit_single(l: u32)
    requires
        l < 26,
    ensures
        forall|i: int| #[trigger] bit(1u32 << l, i) <==> i == l,
{
    assert forall|i: int| #[trigger] bit(1u32 << l, i) <==> i == l by {
        if 0 <= i < 26 {
            let j: u32 = i as u32;
            assert(l < 26 && j < 26 ==> (((1u32 << l) >> j) & 1u32 == 1u32 <==> j == l))
                by (bit_vector);
        }
        if i == l {
            assert(bit(1u32 << l, i));
        }
    }
}

/// Two masks of letter positions that agree on every bit are equal.
pub proof fn lemma_mask_ext(m1: u32, m2: u32)
    requires
        m1 < 0x4000000,
        m2 < 0x4000000,
        forall|i: int| 0 <= i < 26 ==> (bit(m1, i) <==> bit(m2, i)),
    ensures
        m1 == m2,
{
    if m1 != m2 {
        let d: u32 = m1 ^ m2;
        assert(m1 < 0x4000000 && m2 < 0x4000000 && m1 != m2 ==> m1 ^ m2 != 0 && m1 ^ m2
            < 0x4000000) by (bit_vector);
        lemma_some_bit(d);
        let i = spec_msl(d);
        let j: u32 = i as u32;
        assert(j < 26 && ((m1 ^ m2) >> j) & 1u32 == 1u32 ==> (((m1 >> j) & 1u32 == 1u32) != ((m2
            >> j) & 1u32 == 1u32))) by (bit_vector);
        assert(bit(m1, i) != bit(m2, i));
    }
}

/// The zero mask has no bit set.
pub proof fn lemma_bit_zero()
    ensures
        forall|i: int| !(#[trigger] bit(0u32, i)),
{
    assert forall|i: int| !(#[trigger] bit(0u32, i)) by {
        if 0 <= i < 26 {
            let j: u32 = i as u32;
            assert((0u32 >> j) & 1u32 != 1u32) by (bit_vector);
        }
    }
}

/// A nonzero mask below `1 << n` has a set bit below `n`.
proof fn lemma_some_bit_below(m: u32, n: u32) -> (i: int)
    requires
        m != 0,
        n <= 26,
        m < (1u32 << n),
    ensures
        0 <= i < n,
        bit(m, i),
    decreases n,
{
    assert(n != 0) by {
        assert(m < (1u32 << 0u32) ==> m == 0) by (bit_vector);
    }
    let n1: u32 = (n - 1) as u32;
    if bitu(m, n1) {
        n1 as int
    } else {
        assert(m < (1u32 << ((n1 + 1) as u32)) && !((m >> n1) & 1u32 == 1u32) && n1 < 26 ==> m
            < (1u32 << n1)) by (bit_vector);
        lemma_some_bit_below(m, n1)
    }
}

/// A nonzero mask of letter positions has its highest bit set.
pub proof fn lemma_some_bit(m: u32)
    requires
        m != 0,
        m < 0x4000000,
    ensures
        0 <= spec_msl(m) < 26,
        bit(m, spec_msl(m)),
{
    assert(0x4000000u32 == (1u32 << 26)) by (bit_vector);
    let i0 = lemma_some_bit_below(m, 26);
    lemma_msl_below(m, 26);
    if spec_msl(m) < i0 {
        assert(!bit(m, i0));
    }
}

/// What `msl_below` returns: the highest set bit below `n`, or `-1` when no
/// bit below `n` is set.
pub proof fn lemma_msl_below(m: u32, n: int)
    ensures
        msl_below(m, n) >= 0 ==> bit(m, msl_below(m, n)) && msl_below(m, n) < n,
        forall|i: int| msl_below(m, n) < i < n ==> !bit(m, i),
        msl_below(m, n) >= -1,
    decreases n,
{
    if n > 0 {
        lemma_msl_below(m, n - 1);
    }
}

/// Popcount never exceeds the number of positions counted.
pub proof fn lemma_pc_le(m: u32, n: int)
    requires
        n >= 0,
    ensures
        pc(m, n) <= n,
    decreases n,
{
    if n > 0 {
        lemma_pc_le(m, n - 1);
    }
}

/// Popcount of a disjoint union is the sum of the popcounts.
pub proof fn lemma_pc_or_disjoint(m1: u32, m2: u32, n: int)
    requires
        m1 & m2 == 0,
    ensures
        pc(m1 | m2, n) == pc(m1, n) + pc(m2, n),
    decreases n,
{
    if n > 0 {
        lemma_pc_or_disjoint(m1, m2, n - 1);
        if 0 <= n - 1 < 26 {
            let j: u32 = (n - 1) as u32;
            assert(m1 & m2 == 0 && j < 26 ==> !((m1 >> j) & 1u32 == 1u32 && (m2 >> j) & 1u32
                == 1u32)) by (bit_vector);
            assert(j < 26 ==> (((m1 | m2) >> j) & 1u32 == 1u32 <==> ((m1 >> j) & 1u32 == 1u32)
                || ((m2 >> j) & 1u32 == 1u32))) by (bit_vector);
        }
    }
}

/// Popcount of a single-bit mask.
pub proof fn lemma_pc_single(l: u32, n: int)
    requires
        l < 26,
    ensures
        pc(1u32 << l, n) == if n > l {
            1nat
        } else {
            0nat
        },
    decreases n,
{
    if n > 0 {
        lemma_pc_single(l, n - 1);
        if 0 <= n - 1 < 26 {
            let j: u32 = (n - 1) as u32;
            assert(l < 26 && j < 26 ==> (((1u32 << l) >> j) & 1u32 == 1u32 <==> j == l))
                by (bit_vector);
        }
    }
}

/// Setting one previously clear letter bit raises the popcount by one.
pub proof fn lemma_pc_set_bit(m: u32, l: u32)
    requires
        l < 26,
        !bitu(m, l),
    ensures
        pc(m | (1u32 << l), 26) == pc(m, 26) + 1,
{
    assert(l < 26 && !((m >> l) & 1u32 == 1u32) ==> m & (1u32 << l) == 0) by (bit_vector);
    lemma_pc_or_disjoint(m, 1u32 << l, 26);
    lemma_pc_single(l, 26);
}

/// A mask with no letter position set has popcount zero.
pub proof fn lemma_pc_none(m: u32, n: int)
    requires
        forall|i: int| !(#[trigger] bit(m, i)),
    ensures
        pc(m, n) == 0,
    decreases n,
{
    if n > 0 {
        lemma_pc_none(m, n - 1);
    }
}

/// A mask whose popcount over `0 .. n` reaches `n` has every one of those
/// bits set.
pub proof fn lemma_pc_full(m: u32, n: int)
    requires
        pc(m, n) == n,
        n >= 0,
    ensures
        forall|i: int| 0 <= i < n ==> bit(m, i),
    decreases n,
{
    if n > 0 {
        lemma_pc_le(m, n - 1);
        lemma_pc_full(m, n - 1);
    }
}

/// A clear bit keeps the popcount strictly below the positions counted.
pub proof fn lemma_pc_missing_one(m: u32, i: int, n: int)
    requires
        0 <= i < n,
        !bit(m, i),
    ensures
        pc(m, n) <= n - 1,
    decreases n,
{
    lemma_pc_le(m, n - 1);
    if n - 1 > i {
        lemma_pc_missing_one(m, i, n - 1);
    }
}

/// Two clear bits keep the popcount two below the positions counted.
pub proof fn lemma_pc_missing_two(m: u32, i: int, j: int, n: int)
    requires
        0 <= i < j < n,
        !bit(m, i),
        !bit(m, j),
    ensures
        pc(m, n) <= n - 2,
    decreases n,
{
    if n - 1 == j {
        lemma_pc_missing_one(m, i, n - 1);
    } else {
        lemma_pc_missing_two(m, i, j, n - 1);
    }
}

/// Masks sharing no letter position have zero intersection.
pub proof fn lemma_bit_disjoint_conv(m1: u32, m2: u32)
    requires
        m1 < 0x4000000,
        forall|i: int| !(#[trigger] bit(m1, i) && bit(m2, i)),
    ensures
        m1 & m2 == 0,
{
    if m1 & m2 != 0 {
        let d: u32 = m1 & m2;
        assert(m1 < 0x4000000 ==> m1 & m2 < 0x4000000) by (bit_vector);
        lemma_some_bit(d);
        let i = spec_msl(d);
        let j: u32 = i as u32;
        assert(((m1 & m2) >> j) & 1u32 == 1u32 ==> (m1 >> j) & 1u32 == 1u32 && (m2 >> j) & 1u32
            == 1u32) by (bit_vector);
        assert(bit(m1, i) && bit(m2, i));
    }
}

/// A mask with every letter position set has popcount `n` over `0 .. n`.
pub proof fn lemma_pc_all_set(m: u32, n: int)
    requires
        n <= 26,
        forall|i: int| 0 <= i < 26 ==> bit(m, i),
    ensures
        n >= 0 ==> pc(m, n) == n,
    decreases n,
{
    if n > 0 {
        lemma_pc_all_set(m, n - 1);
    }
}

} // verus!
