//! The cover search: a pruning backtracking walk over the 26 rarity-ranked
//! bit positions, from rarest down, that assembles every selection of five
//! pairwise-disjoint words covering 25 of the 26 positions, allowing exactly
//! one position to stay uncovered.

use crate::bits::{bit, lemma_bit_disjoint, lemma_bit_disjoint_conv, lemma_bit_or, lemma_bit_zero,
    lemma_msl_below, lemma_pc_full, lemma_pc_le, lemma_pc_none, lemma_pc_or_disjoint,
    lemma_pc_set_bit, lemma_some_bit, pc, popcount26, spec_msl};
use crate::index::{all_raw_wf, create_word_index, has_mask, is_index_of, lemma_index_buckets,
    WordIndex};
use crate::word::Word;
use vstd::prelude::*;

verus! {

/// Union of the masks of a word sequence.
pub open spec fn union_masks(c: Seq<Word>) -> u32
    decreases c.len(),
{
    if c.len() == 0 {
        0u32
    } else {
        c[0].bitword | union_masks(c.drop_first())
    }
}

/// Number of letter positions neither committed in `filter` nor covered by
/// the words of `c`.
pub open spec fn free_count(filter: u32, c: Seq<Word>) -> int {
    26 - pc(filter | union_masks(c), 26)
}

/// `l` is the rarest (highest-ranked) letter position still free in
/// `filter`.
pub open spec fn is_rarest_free(filter: u32, l: int) -> bool {
    &&& 0 <= l < 26
    &&& !bit(filter, l)
    &&& forall|i: int| l < i < 26 ==> bit(filter, i)
}

/// A word sequence that completes the search state `(filter, skipped)` into
/// full covers: words of the index, mutually disjoint and disjoint from the
/// committed letters, placed rarest letter first, leaving no position
/// uncovered beyond the at most one skip still allowed.
pub open spec fn valid_completion(idx: WordIndex, filter: u32, skipped: bool, c: Seq<Word>) -> bool {
    &&& forall|q: int| 0 <= q < c.len() ==> idx.contains_word(#[trigger] c[q])
    &&& forall|q: int| 0 <= q < c.len() ==> (#[trigger] c[q]).bitword & filter == 0
    &&& forall|q1: int, q2: int|
        0 <= q1 < q2 < c.len() ==> (#[trigger] c[q1]).bitword & (#[trigger] c[q2]).bitword == 0
    &&& forall|q1: int, q2: int|
        0 <= q1 < q2 < c.len() ==> spec_msl((#[trigger] c[q1]).bitword) > spec_msl(
            (#[trigger] c[q2]).bitword)
    &&& free_count(filter, c) <= if skipped {
        0int
    } else {
        1int
    }
}

/// A five-word cover reachable from the index: what the search emits.
pub open spec fn is_cover(idx: WordIndex, c: Seq<Word>) -> bool {
    c.len() == 5 && valid_completion(idx, 0u32, false, c)
}

/// `out1` extends `out0` by exactly the solutions `prefix + c` for the
/// completions `c` of the state `(filter, skipped)` of length `need`, each
/// exactly once.
pub open spec fn solutions_extended(
    out0: Seq<Vec<Word>>,
    out1: Seq<Vec<Word>>,
    prefix: Seq<Word>,
    idx: WordIndex,
    filter: u32,
    skipped: bool,
    need: nat,
) -> bool {
    &&& out1.len() >= out0.len()
    &&& forall|k: int| 0 <= k < out0.len() ==> out1[k] == out0[k]
    &&& forall|k: int|
        out0.len() <= k < out1.len() ==> (#[trigger] out1[k])@.len() == prefix.len() + need
            && out1[k]@.take(prefix.len() as int) == prefix && valid_completion(
            idx,
            filter,
            skipped,
            out1[k]@.skip(prefix.len() as int),
        )
    &&& forall|c: Seq<Word>|
        c.len() == need && #[trigger] valid_completion(idx, filter, skipped, c) ==> exists|k: int|
            out0.len() <= k < out1.len() && (#[trigger] out1[k])@ == prefix + c
    &&& forall|k1: int, k2: int|
        out0.len() <= k1 < k2 < out1.len() ==> (#[trigger] out1[k1])@ != (#[trigger] out1[k2])@
}

/// The bits of a union of masks are the bits of its members.
proof fn lemma_union_bits(c: Seq<Word>)
    ensures
        forall|i: int| #[trigger] bit(union_masks(c), i) <==> exists|q: int|
            0 <= q < c.len() && bit((#[trigger] c[q]).bitword, i),
    decreases c.len(),
{
    if c.len() == 0 {
        lemma_bit_zero();
    } else {
        let rest = c.drop_first();
        lemma_union_bits(rest);
        lemma_bit_or(c[0].bitword, union_masks(rest));
        assert forall|i: int| #[trigger] bit(union_masks(c), i) implies exists|q: int|
            0 <= q < c.len() && bit((#[trigger] c[q]).bitword, i) by {
            if bit(c[0].bitword, i) {
                assert(bit(c[0].bitword, i));
            } else {
                let q = choose|q: int| 0 <= q < rest.len() && bit(rest[q].bitword, i);
                assert(bit(c[q + 1].bitword, i));
            }
        }
        assert forall|i: int|
            (exists|q: int| 0 <= q < c.len() && bit((#[trigger] c[q]).bitword, i))
            implies #[trigger] bit(union_masks(c), i) by {
            let q = choose|q: int| 0 <= q < c.len() && bit(c[q].bitword, i);
            if q == 0 {
                assert(bit(c[0].bitword, i));
            } else {
                assert(bit(rest[q - 1].bitword, i));
                assert(bit(union_masks(rest), i));
            }
        }
    }
}

/// Every word standing in a well-formed index is well-formed, and its mask
/// peaks at its most significant letter.
proof fn lemma_member_wf(idx: WordIndex, w: Word)
    requires
        idx.wf(),
        idx.contains_word(w),
    ensures
        w.indexed_wf(),
        0 <= spec_msl(w.bitword) < 26,
        bit(w.bitword, spec_msl(w.bitword)),
        forall|i: int| #[trigger] bit(w.bitword, i) ==> i <= spec_msl(w.bitword),
        idx.buckets@[spec_msl(w.bitword)]@.contains(w),
{
    lemma_index_buckets(idx);
    let b = choose|b: int| 0 <= b < 26 && (#[trigger] idx.buckets@[b]@).contains(w);
    let t = choose|t: int| 0 <= t < idx.buckets@[b]@.len() && idx.buckets@[b]@[t] == w;
    assert(w.indexed_wf());
    assert(spec_msl(w.bitword) == b);
    lemma_msl_below(w.bitword, 26);
    assert(popcount26(w.bitword) == 5);
    if w.bitword == 0 {
        lemma_bit_zero();
        lemma_pc_none(0u32, 26);
    }
    lemma_some_bit(w.bitword);
}

/// Splitting a completion whose head carries the rarest free letter: the
/// head has that letter as its most significant one and stands in its
/// bucket, and the tail completes the state with the head's mask committed.
proof fn lemma_completion_split(idx: WordIndex, filter: u32, skipped: bool, c: Seq<Word>, l: int)
    requires
        idx.wf(),
        c.len() >= 1,
        valid_completion(idx, filter, skipped, c),
        is_rarest_free(filter, l),
        bit(c[0].bitword, l),
    ensures
        spec_msl(c[0].bitword) == l,
        idx.buckets@[l]@.contains(c[0]),
        valid_completion(idx, filter | c[0].bitword, skipped, c.skip(1)),
{
    let w = c[0];
    lemma_member_wf(idx, w);
    lemma_bit_disjoint(w.bitword, filter);
    assert(spec_msl(w.bitword) == l) by {
        assert(l <= spec_msl(w.bitword));
        let m = spec_msl(w.bitword);
        if m > l {
            assert(bit(filter, m));
            assert(bit(w.bitword, m));
        }
    }
    let c2 = c.skip(1);
    assert(c.drop_first() =~= c2);
    assert(union_masks(c) == w.bitword | union_masks(c2));
    let f2 = filter | w.bitword;
    assert forall|q: int| 0 <= q < c2.len() implies (#[trigger] c2[q]).bitword & f2 == 0 by {
        assert(c2[q] == c[q + 1]);
        let x = c[q + 1].bitword;
        let wb = w.bitword;
        assert(wb & x == 0 ==> x & wb == 0) by (bit_vector);
        assert(x & filter == 0 && x & wb == 0 ==> x & (filter | wb) == 0) by (bit_vector);
    }
    assert forall|q1: int, q2: int| 0 <= q1 < q2 < c2.len() implies (#[trigger] c2[q1]).bitword
        & (#[trigger] c2[q2]).bitword == 0 by {
        assert(c2[q1] == c[q1 + 1] && c2[q2] == c[q2 + 1]);
        assert(c[q1 + 1].bitword & c[q2 + 1].bitword == 0);
    }
    assert forall|q1: int, q2: int| 0 <= q1 < q2 < c2.len() implies spec_msl(
        (#[trigger] c2[q1]).bitword) > spec_msl((#[trigger] c2[q2]).bitword) by {
        assert(c2[q1] == c[q1 + 1] && c2[q2] == c[q2 + 1]);
        assert(spec_msl(c[q1 + 1].bitword) > spec_msl(c[q2 + 1].bitword));
    }
    assert forall|q: int| 0 <= q < c2.len() implies idx.contains_word(#[trigger] c2[q]) by {
        assert(c2[q] == c[q + 1]);
        assert(idx.contains_word(c[q + 1]));
    }
    let wb = w.bitword;
    let u2 = union_masks(c2);
    assert((filter | wb) | u2 == filter | (wb | u2)) by (bit_vector);
    assert(free_count(f2, c2) == free_count(filter, c));
}

/// Joining: a word of the rarest free letter's bucket, disjoint from the
/// committed letters, prepended to a completion of the deeper state, is a
/// completion of the current state.
proof fn lemma_completion_cons(
    idx: WordIndex,
    filter: u32,
    skipped: bool,
    w: Word,
    c2: Seq<Word>,
    l: int,
)
    requires
        idx.wf(),
        is_rarest_free(filter, l),
        idx.contains_word(w),
        spec_msl(w.bitword) == l,
        w.bitword & filter == 0,
        valid_completion(idx, filter | w.bitword, skipped, c2),
    ensures
        valid_completion(idx, filter, skipped, seq![w] + c2),
{
    let c = seq![w] + c2;
    assert(c.len() == 1 + c2.len());
    assert(c[0] == w);
    assert(forall|q: int| 1 <= q < c.len() ==> #[trigger] c[q] == c2[q - 1]);
    lemma_member_wf(idx, w);
    let f2 = filter | w.bitword;
    assert forall|q: int| 0 <= q < c.len() implies (#[trigger] c[q]).bitword & filter == 0 by {
        if q >= 1 {
            let x = c2[q - 1].bitword;
            let wb = w.bitword;
            assert(x & (filter | wb) == 0 ==> x & filter == 0 && x & wb == 0) by (bit_vector);
        }
    }
    assert forall|q1: int, q2: int| 0 <= q1 < q2 < c.len() implies (#[trigger] c[q1]).bitword & (
    #[trigger] c[q2]).bitword == 0 by {
        if q1 == 0 {
            let x = c2[q2 - 1].bitword;
            let wb = w.bitword;
            assert(x & (filter | wb) == 0 ==> wb & x == 0) by (bit_vector);
        } else {
            assert(c2[q1 - 1].bitword & c2[q2 - 1].bitword == 0);
        }
    }
    assert forall|q1: int, q2: int| 0 <= q1 < q2 < c.len() implies spec_msl(
        (#[trigger] c[q1]).bitword) > spec_msl((#[trigger] c[q2]).bitword) by {
        if q1 == 0 {
            let x = c2[q2 - 1];
            lemma_member_wf(idx, x);
            assert(spec_msl(x.bitword) < l) by {
                let m = spec_msl(x.bitword);
                assert(bit(x.bitword, m));
                assert(x.bitword & (filter | w.bitword) == 0);
                lemma_bit_or(filter, w.bitword);
                lemma_bit_disjoint(x.bitword, filter | w.bitword);
                if m > l {
                    assert(bit(filter, m));
                    assert(bit(filter | w.bitword, m));
                }
                if m == l {
                    assert(bit(w.bitword, l));
                    assert(bit(filter | w.bitword, m));
                }
            }
        } else {
            assert(spec_msl(c2[q1 - 1].bitword) > spec_msl(c2[q2 - 1].bitword));
        }
    }
    assert forall|q: int| 0 <= q < c.len() implies idx.contains_word(#[trigger] c[q]) by {
        if q >= 1 {
            assert(idx.contains_word(c2[q - 1]));
        }
    }
    assert(c.drop_first() =~= c2);
    let u2 = union_masks(c2);
    let wb = w.bitword;
    assert((filter | wb) | u2 == filter | (wb | u2)) by (bit_vector);
    assert(free_count(filter, c) == free_count(f2, c2));
}

/// A completion that does not touch the rarest free letter survives
/// committing that letter as the one skipped position; this consumes the
/// single allowed skip.
proof fn lemma_completion_skip_out(idx: WordIndex, filter: u32, c: Seq<Word>, l: int)
    requires
        idx.wf(),
        valid_completion(idx, filter, false, c),
        is_rarest_free(filter, l),
        c.len() >= 1 ==> !bit(c[0].bitword, l),
    ensures
        valid_completion(idx, filter | (1u32 << (l as u32)), true, c),
{
    let lu: u32 = l as u32;
    let m: u32 = 1u32 << lu;
    assert forall|q: int| 0 <= q < c.len() implies !bit((#[trigger] c[q]).bitword, l) by {
        lemma_member_wf(idx, c[q]);
        if q == 0 {
        } else {
            assert(spec_msl(c[0].bitword) > spec_msl(c[q].bitword));
            lemma_member_wf(idx, c[0]);
            lemma_bit_disjoint(c[0].bitword, filter);
            assert(spec_msl(c[0].bitword) <= l) by {
                let m0 = spec_msl(c[0].bitword);
                if m0 > l {
                    assert(bit(filter, m0));
                    assert(bit(c[0].bitword, m0));
                }
            }
            if bit(c[q].bitword, l) {
                assert(l <= spec_msl(c[q].bitword));
            }
        }
    }
    assert forall|q: int| 0 <= q < c.len() implies (#[trigger] c[q]).bitword & (filter | m)
        == 0 by {
        let x = c[q].bitword;
        assert(!bit(x, l));
        assert(lu < 26 && !((x >> lu) & 1u32 == 1u32) && x & filter == 0 ==> x & (filter | (1u32
            << lu)) == 0) by (bit_vector);
    }
    let u = union_masks(c);
    lemma_union_bits(c);
    lemma_bit_or(filter, u);
    assert(!bit(filter | u, l));
    assert((filter | (1u32 << lu)) | u == (filter | u) | (1u32 << lu)) by (bit_vector);
    assert(!((((filter | u) >> lu) & 1u32) == 1u32)) by {
        assert(!bit(filter | u, l));
    }
    lemma_pc_set_bit(filter | u, lu);
    lemma_pc_le(filter | u, 26);
    assert(pc(filter | u, 26) < 26) by {
        if pc(filter | u, 26) == 26 {
            lemma_pc_full(filter | u, 26);
            assert(bit(filter | u, l));
        }
    }
    assert(free_count(filter | m, c) <= 0);
}

/// Conversely, completions of the skipped state are completions of the
/// unskipped one, touching the skipped letter in no word.
proof fn lemma_completion_skip_in(idx: WordIndex, filter: u32, c: Seq<Word>, l: int)
    requires
        idx.wf(),
        is_rarest_free(filter, l),
        valid_completion(idx, filter | (1u32 << (l as u32)), true, c),
    ensures
        valid_completion(idx, filter, false, c),
        c.len() >= 1 ==> !bit(c[0].bitword, l),
{
    let lu: u32 = l as u32;
    let m: u32 = 1u32 << lu;
    assert forall|q: int| 0 <= q < c.len() implies (#[trigger] c[q]).bitword & filter == 0 && !bit(
        (#[trigger] c[q]).bitword, l) by {
        let x = c[q].bitword;
        assert(x & (filter | (1u32 << lu)) == 0 && lu < 26 ==> x & filter == 0 && !((x >> lu)
            & 1u32 == 1u32)) by (bit_vector);
    }
    let u = union_masks(c);
    lemma_union_bits(c);
    lemma_bit_or(filter, u);
    assert(!bit(filter | u, l));
    assert((filter | (1u32 << lu)) | u == (filter | u) | (1u32 << lu)) by (bit_vector);
    lemma_pc_set_bit(filter | u, lu);
    assert(free_count(filter, c) <= 1);
}

/// Once the skip is spent, every completion covers the rarest free letter
/// with its first word.
proof fn lemma_completion_skipped_head(idx: WordIndex, filter: u32, c: Seq<Word>, l: int)
    requires
        idx.wf(),
        valid_completion(idx, filter, true, c),
        c.len() >= 1,
        is_rarest_free(filter, l),
    ensures
        bit(c[0].bitword, l),
{
    let u = union_masks(c);
    lemma_union_bits(c);
    lemma_bit_or(filter, u);
    lemma_pc_le(filter | u, 26);
    assert(pc(filter | u, 26) == 26);
    lemma_pc_full(filter | u, 26);
    assert(bit(filter | u, l));
    assert(bit(u, l));
    let q = choose|q: int| 0 <= q < c.len() && bit((#[trigger] c[q]).bitword, l);
    lemma_member_wf(idx, c[q]);
    lemma_bit_disjoint(c[q].bitword, filter);
    assert(spec_msl(c[q].bitword) == l) by {
        let mq = spec_msl(c[q].bitword);
        assert(l <= mq);
        if mq > l {
            assert(bit(filter, mq));
            assert(bit(c[q].bitword, mq));
        }
    }
    if q > 0 {
        lemma_member_wf(idx, c[0]);
        lemma_bit_disjoint(c[0].bitword, filter);
        assert(spec_msl(c[0].bitword) > spec_msl(c[q].bitword));
        let m0 = spec_msl(c[0].bitword);
        assert(bit(c[0].bitword, m0));
        assert(bit(filter, m0));
    }
}

/// Find the rarest letter position still free in `filter`.  The caller
/// guarantees a free position exists; a full filter would be a logic fault.
pub fn next_free_letter(filter: u32) -> (l: usize)
    requires
        pc(filter, 26) < 26,
    ensures
        is_rarest_free(filter, l as int),
{
    let mut i: usize = 26;
    while i > 0
        invariant
            i <= 26,
            forall|j: int| i <= j < 26 ==> bit(filter, j),
        decreases i,
    {
        i = i - 1;
        let m: u32 = 1u32 << (i as u32);
        if filter & m == 0 {
            proof {
                let j: u32 = i as u32;
                assert(j < 26 && filter & (1u32 << j) == 0 ==> !((filter >> j) & 1u32 == 1u32))
                    by (bit_vector);
            }
            return i;
        }
        proof {
            let j: u32 = i as u32;
            assert(j < 26 && filter & (1u32 << j) != 0 ==> (filter >> j) & 1u32 == 1u32)
                by (bit_vector);
        }
    }
    proof {
        crate::bits::lemma_pc_all_set(filter, 26);
        assert(false);
    }
    0
}

/// Copy a word vector.
fn copy_words(v: &Vec<Word>) -> (r: Vec<Word>)
    ensures
        r@ == v@,
{
    let mut r: Vec<Word> = Vec::new();
    let mut i: usize = 0;
    while i < v.len()
        invariant
            i <= v@.len(),
            r@ == v@.take(i as int),
        decreases v@.len() - i,
    {
        r.push(v[i]);
        proof {
            assert(v@.take(i as int + 1) =~= v@.take(i as int).push(v@[i as int]));
        }
        i = i + 1;
    }
    proof {
        assert(v@.take(v@.len() as int) =~= v@);
    }
    r
}


/// An appended solution of the deeper state, with the chosen bucket word
/// pushed onto the prefix, is a solution of the current state whose
/// completion starts with that word.
proof fn lemma_consume_elem(
    idx: WordIndex,
    filter: u32,
    skipped: bool,
    w: Word,
    l: int,
    p0: Seq<Word>,
    e: Seq<Word>,
    need: nat,
)
    requires
        idx.wf(),
        is_rarest_free(filter, l),
        idx.contains_word(w),
        spec_msl(w.bitword) == l,
        w.bitword & filter == 0,
        need >= 1,
        e.len() == p0.len() + need,
        e.take((p0.len() + 1) as int) == p0.push(w),
        valid_completion(idx, filter | w.bitword, skipped, e.skip((p0.len() + 1) as int)),
    ensures
        e.take(p0.len() as int) == p0,
        valid_completion(idx, filter, skipped, e.skip(p0.len() as int)),
        e[p0.len() as int] == w,
{
    let p1 = p0.push(w);
    let c2 = e.skip(p1.len() as int);
    let cc = e.skip(p0.len() as int);
    assert(e[p0.len() as int] == p1[p0.len() as int]) by {
        assert(e.take(p1.len() as int)[p0.len() as int] == e[p0.len() as int]);
    }
    assert(cc =~= seq![w] + c2) by {
        assert(cc.len() == 1 + c2.len());
        assert(cc[0] == e[p0.len() as int]);
        assert(p1[p0.len() as int] == w);
        assert forall|z: int| 1 <= z < cc.len() implies cc[z] == c2[z - 1] by {
            assert(cc[z] == e[p0.len() + z]);
            assert(c2[z - 1] == e[p1.len() + z - 1]);
        }
    }
    lemma_completion_cons(idx, filter, skipped, w, c2, l);
    assert(e.take(p0.len() as int) =~= p0) by {
        assert forall|z: int| 0 <= z < p0.len() implies e[z] == p0[z] by {
            assert(e.take(p1.len() as int)[z] == e[z]);
            assert(p1[z] == p0[z]);
        }
    }
}

/// A completion starting with the chosen bucket word factors through the
/// deeper state: its tail completes that state, under the longer prefix.
proof fn lemma_consume_complete(
    idx: WordIndex,
    filter: u32,
    skipped: bool,
    w: Word,
    l: int,
    p0: Seq<Word>,
    c: Seq<Word>,
    need: nat,
)
    requires
        idx.wf(),
        is_rarest_free(filter, l),
        c.len() == need,
        need >= 1,
        valid_completion(idx, filter, skipped, c),
        c[0] == w,
        bit(w.bitword, l),
    ensures
        c.skip(1).len() == need - 1,
        valid_completion(idx, filter | w.bitword, skipped, c.skip(1)),
        p0.push(w) + c.skip(1) == p0 + c,
{
    lemma_completion_split(idx, filter, skipped, c, l);
    assert(p0.push(w) + c.skip(1) =~= p0 + c) by {
        assert(c =~= seq![c[0]] + c.skip(1));
    }
}

/// One step of the backtracking search: appends to `out`, exactly once
/// each, every solution `prefix + c` where `c` completes the state
/// `(filter, skipped)` to a full cover.  `filter` holds the letters of the
/// words already placed plus the skipped letter, if any.
#[verifier::loop_isolation(false)]
#[verifier::rlimit(100)]
#[verifier::spinoff_prover]
pub fn search(
    idx: &WordIndex,
    filter: u32,
    skipped: bool,
    prefix: &mut Vec<Word>,
    out: &mut Vec<Vec<Word>>,
)
    requires
        idx.wf(),
        old(prefix)@.len() <= 5,
        pc(filter, 26) == 5 * old(prefix)@.len() + if skipped {
            1int
        } else {
            0int
        },
    ensures
        final(prefix)@ == old(prefix)@,
        solutions_extended(
            old(out)@,
            final(out)@,
            old(prefix)@,
            *idx,
            filter,
            skipped,
            (5 - old(prefix)@.len()) as nat,
        ),
    decreases 26 - pc(filter, 26),
{
    let ghost p0 = prefix@;
    let ghost out0 = out@;
    let ghost need = (5 - p0.len()) as nat;
    proof {
        lemma_index_buckets(*idx);
        lemma_pc_le(filter, 26);
    }
    if prefix.len() == 5 {
        let sol = copy_words(prefix);
        out.push(sol);
        proof {
            let e = Seq::<Word>::empty();
            assert(union_masks(e) == 0u32);
            assert(filter | 0u32 == filter) by (bit_vector);
            assert(valid_completion(*idx, filter, skipped, e));
            assert(out@ =~= out0.push(sol));
            assert(sol@.take(p0.len() as int) =~= p0);
            assert(sol@.skip(p0.len() as int) =~= e);
            assert forall|c: Seq<Word>|
                c.len() == need && #[trigger] valid_completion(*idx, filter, skipped, c)
                implies exists|k: int|
                out0.len() <= k < out@.len() && (#[trigger] out@[k])@ == p0 + c by {
                assert(c =~= e);
                assert(p0 + c =~= p0);
                assert(out@[out0.len() as int]@ == p0 + c);
            }
        }
    } else {
        let letter = next_free_letter(filter);
        let ghost l = letter as int;
        let ghost bucket = idx.buckets@[l]@;
        let bucket_len = idx.bucket(letter).len();
        proof {
            // every word of this bucket carries the rarest free letter
            assert forall|q: int| 0 <= q < bucket.len() implies bit(
                (#[trigger] bucket[q]).bitword, l) by {
                lemma_msl_below(bucket[q].bitword, 26);
            }
        }
        let mut t: usize = 0;
        while t < bucket_len
            invariant
                t <= bucket_len,
                prefix@ == p0,
                out@.len() >= out0.len(),
                forall|k: int| 0 <= k < out0.len() ==> out@[k] == out0[k],
                forall|k: int|
                    out0.len() <= k < out@.len() ==> (#[trigger] out@[k])@.len() == p0.len()
                        + need && out@[k]@.take(p0.len() as int) == p0 && valid_completion(
                        *idx,
                        filter,
                        skipped,
                        out@[k]@.skip(p0.len() as int),
                    ) && (exists|q: int|
                        0 <= q < t && #[trigger] bucket[q] == out@[k]@[p0.len() as int]),
                forall|c: Seq<Word>|
                    c.len() == need && #[trigger] valid_completion(*idx, filter, skipped, c) && (
                    exists|q: int| 0 <= q < t && #[trigger] bucket[q] == c[0]) ==> exists|k: int|
                        out0.len() <= k < out@.len() && (#[trigger] out@[k])@ == p0 + c,
                forall|k1: int, k2: int|
                    out0.len() <= k1 < k2 < out@.len() ==> (#[trigger] out@[k1])@ != (
                    #[trigger] out@[k2])@,
            decreases bucket_len - t,
        {
            let w = idx.bucket(letter)[t];
            let ghost out_a = out@;
            if w.bitword & filter == 0 {
                proof {
                    let wb = w.bitword;
                    assert(wb & filter == 0 ==> filter & wb == 0) by (bit_vector);
                    lemma_pc_or_disjoint(filter, wb, 26);
                    assert(idx.contains_word(w)) by {
                        assert(idx.buckets@[l]@.contains(w)) by {
                            assert(bucket[t as int] == w);
                        }
                    }
                }
                prefix.push(w);
                let ghost p1 = prefix@;
                search(idx, filter | w.bitword, skipped, prefix, out);
                prefix.pop();
                proof {
                    assert(p1.drop_last() =~= p0);
                    assert(prefix@ == p0);
                    let f2 = filter | w.bitword;
                    let ghost out_b = out@;
                    // the newly appended solutions are exactly those whose
                    // completion starts with this bucket word
                    assert forall|k: int|
                        out0.len() <= k < out_b.len() implies (#[trigger] out_b[k])@.len()
                        == p0.len() + need && out_b[k]@.take(p0.len() as int) == p0
                        && valid_completion(
                        *idx,
                        filter,
                        skipped,
                        out_b[k]@.skip(p0.len() as int),
                    ) && (exists|q: int|
                        0 <= q < t + 1 && #[trigger] bucket[q] == out_b[k]@[p0.len() as int]) by {
                        if k < out_a.len() {
                            assert(out_b[k] == out_a[k]);
                            let q0 = choose|q: int|
                                0 <= q < t && #[trigger] bucket[q] == out_a[k]@[p0.len() as int];
                            assert(0 <= q0 < t + 1 && bucket[q0] == out_b[k]@[p0.len() as int]);
                        } else {
                            let e = out_b[k]@;
                            assert(e.len() == p1.len() + (need - 1));
                            assert(e.take(p1.len() as int) == p1);
                            assert(valid_completion(*idx, f2, skipped, e.skip(p1.len() as int)));
                            lemma_consume_elem(*idx, filter, skipped, w, l, p0, e, need);
                            assert(0 <= t < t + 1 && bucket[t as int] == out_b[k]@[p0.len() as int]);
                        }
                    }
                    assert forall|c: Seq<Word>|
                        c.len() == need && #[trigger] valid_completion(*idx, filter, skipped, c)
                        && (exists|q: int| 0 <= q < t + 1 && #[trigger] bucket[q] == c[0])
                        implies exists|k: int|
                        out0.len() <= k < out_b.len() && (#[trigger] out_b[k])@ == p0 + c by {
                        let q0 = choose|q: int| 0 <= q < t + 1 && #[trigger] bucket[q] == c[0];
                        if q0 < t {
                            let k = choose|k: int|
                                out0.len() <= k < out_a.len() && (#[trigger] out_a[k])@ == p0 + c;
                            assert(out_b[k] == out_a[k]);
                        } else {
                            assert(c[0] == w);
                            assert(bit(c[0].bitword, l));
                            lemma_consume_complete(*idx, filter, skipped, w, l, p0, c, need);
                            let c2 = c.skip(1);
                            let k = choose|k: int|
                                out_a.len() <= k < out_b.len() && (#[trigger] out_b[k])@ == p1
                                    + c2;
                            assert(out_b[k]@ == p0 + c);
                        }
                    }
                    assert forall|k1: int, k2: int|
                        out0.len() <= k1 < k2 < out_b.len() implies (#[trigger] out_b[k1])@ != (
                    #[trigger] out_b[k2])@ by {
                        if k1 < out_a.len() && k2 >= out_a.len() {
                            let q0 = choose|q: int|
                                0 <= q < t && #[trigger] bucket[q] == out_a[k1]@[p0.len() as int];
                            assert(out_b[k1] == out_a[k1]);
                            assert(out_b[k2]@[p0.len() as int] == w) by {
                                assert(out_b[k2]@.take(p1.len() as int) == p1);
                                assert(out_b[k2]@.take(p1.len() as int)[p0.len() as int] == out_b[
                                k2]@[p0.len() as int]);
                            }
                            assert(bucket[q0].bitword != bucket[t as int].bitword);
                            assert(out_b[k1]@[p0.len() as int] != out_b[k2]@[p0.len() as int]);
                            assert(out_b[k1]@.len() > p0.len());
                        }
                    }
                }
            } else {
                proof {
                    assert forall|c: Seq<Word>|
                        c.len() == need && #[trigger] valid_completion(*idx, filter, skipped, c)
                        && (exists|q: int| 0 <= q < t + 1 && #[trigger] bucket[q] == c[0])
                        implies exists|k: int|
                        out0.len() <= k < out@.len() && (#[trigger] out@[k])@ == p0 + c by {
                        let q0 = choose|q: int| 0 <= q < t + 1 && #[trigger] bucket[q] == c[0];
                        if q0 == t {
                            assert(c[0].bitword & filter == 0);
                            assert(false);
                        }
                    }
                }
            }
            t = t + 1;
        }
        if !skipped {
            let ghost out_a = out@;
            proof {
                let lu: u32 = letter as u32;
                assert(!((filter >> lu) & 1u32 == 1u32));
                lemma_pc_set_bit(filter, lu);
            }
            search(idx, filter | (1u32 << (letter as u32)), true, prefix, out);
            proof {
                let fs = filter | (1u32 << (letter as u32));
                let out_b = out@;
                assert forall|k: int|
                    out0.len() <= k < out_b.len() implies (#[trigger] out_b[k])@.len() == p0.len()
                    + need && out_b[k]@.take(p0.len() as int) == p0 && valid_completion(
                    *idx,
                    filter,
                    skipped,
                    out_b[k]@.skip(p0.len() as int),
                ) by {
                    if k < out_a.len() {
                        assert(out_b[k] == out_a[k]);
                    } else {
                        let cc = out_b[k]@.skip(p0.len() as int);
                        assert(valid_completion(*idx, fs, true, cc));
                        lemma_completion_skip_in(*idx, filter, cc, l);
                    }
                }
                assert forall|c: Seq<Word>|
                    c.len() == need && #[trigger] valid_completion(*idx, filter, skipped, c)
                    implies exists|k: int|
                    out0.len() <= k < out_b.len() && (#[trigger] out_b[k])@ == p0 + c by {
                    if bit(c[0].bitword, l) {
                        lemma_completion_split(*idx, filter, skipped, c, l);
                        assert(bucket.contains(c[0]));
                        let q0 = choose|q: int| 0 <= q < bucket.len() && bucket[q] == c[0];
                        assert(exists|q: int|
                            0 <= q < bucket_len && #[trigger] bucket[q] == c[0]) by {
                            assert(bucket[q0] == c[0]);
                        }
                        let k = choose|k: int|
                            out0.len() <= k < out_a.len() && (#[trigger] out_a[k])@ == p0 + c;
                        assert(out_b[k] == out_a[k]);
                    } else {
                        lemma_completion_skip_out(*idx, filter, c, l);
                        assert(valid_completion(*idx, fs, true, c));
                    }
                }
                assert forall|k1: int, k2: int|
                    out0.len() <= k1 < k2 < out_b.len() implies (#[trigger] out_b[k1])@ != (
                #[trigger] out_b[k2])@ by {
                    if k1 < out_a.len() && k2 >= out_a.len() {
                        assert(out_b[k1] == out_a[k1]);
                        let q0 = choose|q: int|
                            0 <= q < bucket_len && #[trigger] bucket[q] == out_a[k1]@[p0.len() as int];
                        assert(bit(out_b[k1]@[p0.len() as int].bitword, l));
                        let cc = out_b[k2]@.skip(p0.len() as int);
                        assert(valid_completion(*idx, fs, true, cc));
                        lemma_completion_skip_in(*idx, filter, cc, l);
                        assert(cc[0] == out_b[k2]@[p0.len() as int]);
                        assert(!bit(out_b[k2]@[p0.len() as int].bitword, l));
                        assert(out_b[k1]@.len() > p0.len());
                    }
                }
            }
        } else {
            proof {
                let out_b = out@;
                assert forall|c: Seq<Word>|
                    c.len() == need && #[trigger] valid_completion(*idx, filter, skipped, c)
                    implies exists|k: int|
                    out0.len() <= k < out_b.len() && (#[trigger] out_b[k])@ == p0 + c by {
                    lemma_completion_skipped_head(*idx, filter, c, l);
                    lemma_completion_split(*idx, filter, skipped, c, l);
                    assert(bucket.contains(c[0]));
                    let q0 = choose|q: int| 0 <= q < bucket.len() && bucket[q] == c[0];
                    assert(exists|q: int| 0 <= q < bucket_len && #[trigger] bucket[q] == c[0])
                        by {
                        assert(bucket[q0] == c[0]);
                    }
                }
            }
        }
    }
}

/// Run the whole search over a well-formed index: the result lists every
/// five-word cover reachable from the index, each exactly once.
pub fn find_covers(idx: &WordIndex) -> (out: Vec<Vec<Word>>)
    requires
        idx.wf(),
    ensures
        forall|k: int| 0 <= k < out@.len() ==> is_cover(*idx, (#[trigger] out@[k])@),
        forall|c: Seq<Word>| #[trigger] is_cover(*idx, c) ==> exists|k: int|
            0 <= k < out@.len() && (#[trigger] out@[k])@ == c,
        forall|k1: int, k2: int|
            0 <= k1 < k2 < out@.len() ==> (#[trigger] out@[k1])@ != (#[trigger] out@[k2])@,
{
    let mut prefix: Vec<Word> = Vec::new();
    let mut out: Vec<Vec<Word>> = Vec::new();
    proof {
        lemma_bit_zero();
        lemma_pc_none(0u32, 26);
    }
    search(idx, 0u32, false, &mut prefix, &mut out);
    proof {
        assert forall|k: int| 0 <= k < out@.len() implies is_cover(*idx, (#[trigger] out@[k])@) by {
            assert(out@[k]@.skip(0) =~= out@[k]@);
        }
        assert forall|c: Seq<Word>| #[trigger] is_cover(*idx, c) implies exists|k: int|
            0 <= k < out@.len() && (#[trigger] out@[k])@ == c by {
            let e = Seq::<Word>::empty();
            let k = choose|k: int| 0 <= k <= k < out@.len() && (#[trigger] out@[k])@ == e + c;
            assert(e + c =~= c);
        }
    }
    out
}

/// Index the dictionary and run the search: the pair of the built index and
/// every cover it admits, each exactly once.
pub fn solve(words: Vec<Word>) -> (r: (WordIndex, Vec<Vec<Word>>))
    requires
        all_raw_wf(words@),
    ensures
        is_index_of(r.0, words@),
        forall|k: int| 0 <= k < r.1@.len() ==> is_cover(r.0, (#[trigger] r.1@[k])@),
        forall|c: Seq<Word>| #[trigger] is_cover(r.0, c) ==> exists|k: int|
            0 <= k < r.1@.len() && (#[trigger] r.1@[k])@ == c,
        forall|k1: int, k2: int|
            0 <= k1 < k2 < r.1@.len() ==> (#[trigger] r.1@[k1])@ != (#[trigger] r.1@[k2])@,
{
    let idx = create_word_index(words);
    let out = find_covers(&idx);
    let r = (idx, out);
    proof {
        assert(r.0 == idx && r.1 == out);
        assert forall|c: Seq<Word>| #[trigger] is_cover(r.0, c) implies exists|k: int|
            0 <= k < r.1@.len() && (#[trigger] r.1@[k])@ == c by {
            assert(is_cover(idx, c));
            let k = choose|k: int| 0 <= k < out@.len() && (#[trigger] out@[k])@ == c;
            assert(0 <= k < r.1@.len() && r.1@[k]@ == c);
        }
    }
    r
}

/// The union of the masks of mutually disjoint index words holds five
/// letter positions per word.
proof fn lemma_union_pc(idx: WordIndex, c: Seq<Word>)
    requires
        idx.wf(),
        forall|q: int| 0 <= q < c.len() ==> idx.contains_word(#[trigger] c[q]),
        forall|q1: int, q2: int|
            0 <= q1 < q2 < c.len() ==> (#[trigger] c[q1]).bitword & (#[trigger] c[q2]).bitword
                == 0,
    ensures
        pc(union_masks(c), 26) == 5 * c.len(),
    decreases c.len(),
{
    if c.len() == 0 {
        lemma_bit_zero();
        lemma_pc_none(0u32, 26);
    } else {
        let rest = c.drop_first();
        assert forall|q: int| 0 <= q < rest.len() implies idx.contains_word(
            #[trigger] rest[q]) by {
            assert(rest[q] == c[q + 1]);
            assert(idx.contains_word(c[q + 1]));
        }
        assert forall|q1: int, q2: int| 0 <= q1 < q2 < rest.len() implies (
        #[trigger] rest[q1]).bitword & (#[trigger] rest[q2]).bitword == 0 by {
            assert(rest[q1] == c[q1 + 1] && rest[q2] == c[q2 + 1]);
            assert(c[q1 + 1].bitword & c[q2 + 1].bitword == 0);
        }
        lemma_union_pc(idx, rest);
        lemma_union_bits(rest);
        lemma_member_wf(idx, c[0]);
        assert forall|i: int| !(#[trigger] bit(c[0].bitword, i) && bit(union_masks(rest), i)) by {
            if bit(c[0].bitword, i) && bit(union_masks(rest), i) {
                let q = choose|q: int| 0 <= q < rest.len() && bit((#[trigger] rest[q]).bitword, i);
                assert(rest[q] == c[q + 1]);
                assert(c[0].bitword & c[q + 1].bitword == 0);
                lemma_bit_disjoint(c[0].bitword, c[q + 1].bitword);
            }
        }
        lemma_bit_disjoint_conv(c[0].bitword, union_masks(rest));
        lemma_pc_or_disjoint(c[0].bitword, union_masks(rest), 26);
    }
}

/// Validity of every emitted cover: five words with pairwise disjoint letter
/// sets and distinct masks, whose union holds exactly 25 of the 26 letter
/// positions, so exactly one letter of the alphabet is absent.
pub proof fn lemma_cover_valid(idx: WordIndex, c: Seq<Word>)
    requires
        idx.wf(),
        is_cover(idx, c),
    ensures
        c.len() == 5,
        forall|q1: int, q2: int|
            0 <= q1 < q2 < 5 ==> (#[trigger] c[q1]).bitword & (#[trigger] c[q2]).bitword == 0,
        forall|q1: int, q2: int|
            0 <= q1 < q2 < 5 ==> (#[trigger] c[q1]).bitword != (#[trigger] c[q2]).bitword,
        popcount26(union_masks(c)) == 25,
        exists|i: int| 0 <= i < 26 && !bit(union_masks(c), i),
        forall|i: int, j: int|
            0 <= i < 26 && 0 <= j < 26 && !(#[trigger] bit(union_masks(c), i)) && !(
            #[trigger] bit(union_masks(c), j)) ==> i == j,
{
    lemma_union_pc(idx, c);
    let u = union_masks(c);
    assert forall|q1: int, q2: int| 0 <= q1 < q2 < 5 implies (#[trigger] c[q1]).bitword != (
    #[trigger] c[q2]).bitword by {
        lemma_member_wf(idx, c[q1]);
        let b1 = c[q1].bitword;
        let b2 = c[q2].bitword;
        if b1 == b2 {
            assert(b1 & b2 == 0 && b1 == b2 ==> b1 == 0) by (bit_vector);
            lemma_bit_zero();
            lemma_pc_none(0u32, 26);
        }
    }
    assert(exists|i: int| 0 <= i < 26 && !bit(u, i)) by {
        if forall|i: int| 0 <= i < 26 ==> bit(u, i) {
            crate::bits::lemma_pc_all_set(u, 26);
        }
    }
    assert forall|i: int, j: int|
        0 <= i < 26 && 0 <= j < 26 && !(#[trigger] bit(u, i)) && !(#[trigger] bit(u, j))
        implies i == j by {
        if i < j {
            crate::bits::lemma_pc_missing_two(u, i, j, 26);
        }
        if j < i {
            crate::bits::lemma_pc_missing_two(u, j, i, 26);
        }
    }
}

/// Validity of every emitted cover in terms of the literal letters: the
/// five words' raw letter masks are pairwise disjoint — no letter appears
/// in two words — and together they hold exactly 25 distinct letters, so
/// exactly one letter of the alphabet goes unused.
pub proof fn lemma_cover_letters(idx: WordIndex, c: Seq<Word>)
    requires
        idx.wf(),
        is_cover(idx, c),
    ensures
        forall|q: int| 0 <= q < 5 ==> crate::word::parse_ok((#[trigger] c[q]).bytes@),
        forall|q1: int, q2: int|
            0 <= q1 < q2 < 5 ==> crate::word::raw_mask((#[trigger] c[q1]).bytes@)
                & crate::word::raw_mask((#[trigger] c[q2]).bytes@) == 0,
        forall|q1: int, q2: int, i1: int, i2: int|
            0 <= q1 < q2 < 5 && 0 <= i1 < 5 && 0 <= i2 < 5 ==> #[trigger] c[q1].bytes@[i1]
                != #[trigger] c[q2].bytes@[i2],
        popcount26(
            crate::word::raw_mask(c[0].bytes@) | crate::word::raw_mask(c[1].bytes@)
                | crate::word::raw_mask(c[2].bytes@) | crate::word::raw_mask(c[3].bytes@)
                | crate::word::raw_mask(c[4].bytes@),
        ) == 25,
{
    lemma_cover_valid(idx, c);
    let d = idx.dedup@;
    let rank = idx.rank@;
    let j0 = lemma_cover_word_origin(idx, c[0]);
    let j1 = lemma_cover_word_origin(idx, c[1]);
    let j2 = lemma_cover_word_origin(idx, c[2]);
    let j3 = lemma_cover_word_origin(idx, c[3]);
    let j4 = lemma_cover_word_origin(idx, c[4]);
    let js = seq![j0, j1, j2, j3, j4];
    assert forall|q: int| 0 <= q < 5 implies crate::word::parse_ok((#[trigger] c[q]).bytes@)
        && crate::word::raw_mask(c[q].bytes@) == d[js[q]].bitword && c[q].bitword
        == crate::index::remap_mask(d[js[q]].bitword, rank, 26) by {
        assert(c[q] == crate::index::spec_transform(d[js[q]], rank));
        assert(d[js[q]].raw_wf());
    }
    assert forall|q1: int, q2: int| 0 <= q1 < q2 < 5 implies crate::word::raw_mask(
        (#[trigger] c[q1]).bytes@) & crate::word::raw_mask((#[trigger] c[q2]).bytes@) == 0 by {
        let m1 = d[js[q1]].bitword;
        let m2 = d[js[q2]].bitword;
        crate::index::lemma_remap_mask(m1, rank, 26);
        crate::index::lemma_remap_mask(m2, rank, 26);
        lemma_bit_disjoint(c[q1].bitword, c[q2].bitword);
        assert forall|i: int| !(#[trigger] bit(m1, i) && bit(m2, i)) by {
            if bit(m1, i) && bit(m2, i) {
                assert(bit(c[q1].bitword, rank[i] as int));
                assert(bit(c[q2].bitword, rank[i] as int));
            }
        }
        assert(d[js[q1]].raw_wf());
        lemma_bit_disjoint_conv(m1, m2);
    }
    assert forall|q1: int, q2: int, i1: int, i2: int|
        0 <= q1 < q2 < 5 && 0 <= i1 < 5 && 0 <= i2 < 5 implies #[trigger] c[q1].bytes@[i1]
        != #[trigger] c[q2].bytes@[i2] by {
        let a1 = c[q1].bytes@;
        let a2 = c[q2].bytes@;
        crate::word::lemma_raw_mask_bits(a1);
        crate::word::lemma_raw_mask_bits(a2);
        if a1[i1] == a2[i2] {
            let l = crate::word::off(a1[i1]);
            assert(bit(crate::word::raw_mask(a1), l));
            assert(bit(crate::word::raw_mask(a2), l));
            lemma_bit_disjoint(crate::word::raw_mask(a1), crate::word::raw_mask(a2));
        }
    }
    let m0 = crate::word::raw_mask(c[0].bytes@);
    let m1 = crate::word::raw_mask(c[1].bytes@);
    let m2 = crate::word::raw_mask(c[2].bytes@);
    let m3 = crate::word::raw_mask(c[3].bytes@);
    let m4 = crate::word::raw_mask(c[4].bytes@);
    assert(pc(m0, 26) == 5 && pc(m1, 26) == 5 && pc(m2, 26) == 5 && pc(m3, 26) == 5 && pc(
        m4, 26) == 5) by {
        assert(d[j0].raw_wf() && d[j1].raw_wf() && d[j2].raw_wf() && d[j3].raw_wf()
            && d[j4].raw_wf());
    }
    lemma_pc_or_disjoint(m0, m1, 26);
    assert(m0 & m1 == 0 && m2 & m0 == 0 && m2 & m1 == 0 ==> (m0 | m1) & m2 == 0 && m2 & (m0 | m1)
        == 0) by (bit_vector);
    assert(m0 & m2 == 0 ==> m2 & m0 == 0) by (bit_vector);
    assert(m1 & m2 == 0 ==> m2 & m1 == 0) by (bit_vector);
    lemma_pc_or_disjoint(m0 | m1, m2, 26);
    let u2 = m0 | m1 | m2;
    assert((m0 | m1) | m2 == u2);
    assert(u2 & m3 == 0) by {
        assert(m0 & m3 == 0 && m1 & m3 == 0 && m2 & m3 == 0 ==> (m0 | m1 | m2) & m3 == 0)
            by (bit_vector);
    }
    lemma_pc_or_disjoint(u2, m3, 26);
    let u3 = m0 | m1 | m2 | m3;
    assert(u2 | m3 == u3);
    assert(u3 & m4 == 0) by {
        assert(m0 & m4 == 0 && m1 & m4 == 0 && m2 & m4 == 0 && m3 & m4 == 0 ==> (m0 | m1 | m2
            | m3) & m4 == 0) by (bit_vector);
    }
    lemma_pc_or_disjoint(u3, m4, 26);
    assert(u3 | m4 == m0 | m1 | m2 | m3 | m4);
}

/// An index whose deduplicated dictionary holds fewer than five words
/// admits no cover at all: five mutually disjoint words cannot be found.
pub proof fn lemma_no_cover_small(idx: WordIndex)
    requires
        idx.wf(),
        idx.dedup@.len() < 5,
    ensures
        forall|c: Seq<Word>| !is_cover(idx, c),
{
    assert forall|c: Seq<Word>| !is_cover(idx, c) by {
        if is_cover(idx, c) {
            lemma_cover_valid(idx, c);
            let j0 = lemma_cover_word_origin(idx, c[0]);
            let j1 = lemma_cover_word_origin(idx, c[1]);
            let j2 = lemma_cover_word_origin(idx, c[2]);
            let j3 = lemma_cover_word_origin(idx, c[3]);
            let j4 = lemma_cover_word_origin(idx, c[4]);
            // distinct masks mean distinct originating dictionary words,
            // five of them, in a dictionary of fewer than five
            assert(c[0].bitword != c[1].bitword && c[0].bitword != c[2].bitword && c[0].bitword
                != c[3].bitword && c[0].bitword != c[4].bitword && c[1].bitword != c[2].bitword
                && c[1].bitword != c[3].bitword && c[1].bitword != c[4].bitword && c[2].bitword
                != c[3].bitword && c[2].bitword != c[4].bitword && c[3].bitword != c[4].bitword);
            assert(j0 != j1 && j0 != j2 && j0 != j3 && j0 != j4 && j1 != j2 && j1 != j3 && j1
                != j4 && j2 != j3 && j2 != j4 && j3 != j4);
            assert(false);
        }
    }
}

/// Every index word is the remapped image of one deduplicated dictionary
/// word; return its position.
proof fn lemma_cover_word_origin(idx: WordIndex, w: Word) -> (j: int)
    requires
        idx.wf(),
        idx.contains_word(w),
    ensures
        0 <= j < idx.dedup@.len(),
        w == crate::index::spec_transform(idx.dedup@[j], idx.rank@),
{
    let d = idx.dedup@;
    let rank = idx.rank@;
    lemma_member_wf(idx, w);
    let b = spec_msl(w.bitword);
    let t = choose|t: int| 0 <= t < idx.buckets@[b]@.len() && idx.buckets@[b]@[t] == w;
    crate::index::lemma_bucket_filter_members(d, rank, b);
    assert(idx.buckets@[b]@ == crate::index::bucket_filter(d, rank, b));
    let j = choose|j: int|
        0 <= j < d.len() && #[trigger] idx.buckets@[b]@[t] == crate::index::spec_transform(
        d[j], rank);
    j
}

/// The boundary case over the raw dictionary: fewer than five parsed input
/// words leave the search nothing to emit.
pub proof fn lemma_small_dictionary_no_cover(idx: WordIndex, input: Seq<Word>)
    requires
        is_index_of(idx, input),
        input.len() < 5,
    ensures
        forall|c: Seq<Word>| !is_cover(idx, c),
{
    let d = idx.dedup@;
    if d.len() >= 5 {
        // five distinct masks would need five distinct input words
        assert forall|t: int| 0 <= t < 5 implies has_mask(input, (#[trigger] d[t]).bitword) by {
            assert(has_mask(d, d[t].bitword)) by {
                assert(d[t].bitword == d[t].bitword);
            }
        }
        let j0 = choose|j: int| 0 <= j < input.len() && #[trigger] input[j].bitword == d[
            0].bitword;
        let j1 = choose|j: int| 0 <= j < input.len() && #[trigger] input[j].bitword == d[
            1].bitword;
        let j2 = choose|j: int| 0 <= j < input.len() && #[trigger] input[j].bitword == d[
            2].bitword;
        let j3 = choose|j: int| 0 <= j < input.len() && #[trigger] input[j].bitword == d[
            3].bitword;
        let j4 = choose|j: int| 0 <= j < input.len() && #[trigger] input[j].bitword == d[
            4].bitword;
        assert(d[0].bitword < d[1].bitword && d[1].bitword < d[2].bitword && d[2].bitword < d[
            3].bitword && d[3].bitword < d[4].bitword);
        assert(j0 != j1 && j0 != j2 && j0 != j3 && j0 != j4 && j1 != j2 && j1 != j3 && j1 != j4
            && j2 != j3 && j2 != j4 && j3 != j4);
        assert(false);
    }
    lemma_no_cover_small(idx);
}

/// Append one word's five letters to a line.
fn push_word_bytes(line: &mut Vec<u8>, w: &Word)
    ensures
        final(line)@ == old(line)@ + w.bytes@,
{
    let ghost l0 = line@;
    let mut j: usize = 0;
    while j < 5
        invariant
            j <= 5,
            line@ == l0 + w.bytes@.take(j as int),
        decreases 5 - j,
    {
        line.push(w.bytes[j]);
        proof {
            assert(w.bytes@.take(j as int + 1) =~= w.bytes@.take(j as int).push(
                w.bytes@[j as int]));
            assert(l0 + w.bytes@.take(j as int + 1) =~= (l0 + w.bytes@.take(j as int)).push(
                w.bytes@[j as int]));
        }
        j = j + 1;
    }
    proof {
        assert(w.bytes@.take(5) =~= w.bytes@);
    }
}

/// One output line for a solution: the five words' letters, space
/// separated, terminated by a newline.
pub fn format_solution_line(sol: &Vec<Word>) -> (line: Vec<u8>)
    requires
        sol@.len() == 5,
    ensures
        line@ == sol@[0].bytes@ + seq![32u8] + sol@[1].bytes@ + seq![32u8] + sol@[2].bytes@
            + seq![32u8] + sol@[3].bytes@ + seq![32u8] + sol@[4].bytes@ + seq![10u8],
{
    let mut line: Vec<u8> = Vec::new();
    push_word_bytes(&mut line, &sol[0]);
    line.push(32);
    push_word_bytes(&mut line, &sol[1]);
    line.push(32);
    push_word_bytes(&mut line, &sol[2]);
    line.push(32);
    push_word_bytes(&mut line, &sol[3]);
    line.push(32);
    push_word_bytes(&mut line, &sol[4]);
    line.push(10);
    proof {
        assert(line@ =~= sol@[0].bytes@ + seq![32u8] + sol@[1].bytes@ + seq![32u8] + sol@[2].bytes@
            + seq![32u8] + sol@[3].bytes@ + seq![32u8] + sol@[4].bytes@ + seq![10u8]);
    }
    line
}

} // verus!
