//! The word indexer: sorts parsed words by mask, collapses anagrams to one
//! representative, ranks the 26 letters by rarity over the surviving set,
//! remaps every mask into rarity-ranked bit positions, and buckets each word
//! under its rarest letter.

use crate::bits::{bit, pc, popcount26, spec_msl};
use crate::word::{ranking_wf, remapped, Word};
use rayon::slice::ParallelSliceMut;
use vstd::prelude::*;
use vstd::seq_lib::group_to_multiset_ensures;

verus! {

pub open spec fn strictly_sorted_by_mask(s: Seq<Word>) -> bool {
    forall|i: int, j: int|
        0 <= i < j < s.len() ==> #[trigger] s[i].bitword < #[trigger] s[j].bitword
}

/// Some word of `s` carries the mask `m`.
pub open spec fn has_mask(s: Seq<Word>, m: u32) -> bool {
    exists|i: int| 0 <= i < s.len() && #[trigger] s[i].bitword == m
}

pub open spec fn all_raw_wf(s: Seq<Word>) -> bool {
    forall|i: int| 0 <= i < s.len() ==> (#[trigger] s[i]).raw_wf()
}

/// The position of the first word of `s` carrying the mask `m`, or
/// `s.len()` when no word does.
pub open spec fn first_pos(s: Seq<Word>, m: u32) -> int
    decreases s.len(),
{
    if s.len() == 0 {
        0
    } else if s[0].bitword == m {
        0
    } else {
        1 + first_pos(s.drop_first(), m)
    }
}

/// `w` is the first word of `s` carrying its mask: the input's first
/// spelling of that letter set.
pub open spec fn is_first_rep(s: Seq<Word>, w: Word) -> bool {
    &&& first_pos(s, w.bitword) < s.len()
    &&& s[first_pos(s, w.bitword)] == w
}

/// What `first_pos` returns: an index of the mask when there is one, with
/// no earlier index carrying it.
pub proof fn lemma_first_pos(s: Seq<Word>, m: u32)
    ensures
        0 <= first_pos(s, m) <= s.len(),
        first_pos(s, m) < s.len() ==> s[first_pos(s, m)].bitword == m,
        forall|j: int| 0 <= j < first_pos(s, m) ==> (#[trigger] s[j]).bitword != m,
        has_mask(s, m) ==> first_pos(s, m) < s.len(),
    decreases s.len(),
{
    if s.len() > 0 && s[0].bitword != m {
        let rest = s.drop_first();
        lemma_first_pos(rest, m);
        assert forall|j: int| 0 <= j < first_pos(s, m) implies (#[trigger] s[j]).bitword != m by {
            if j >= 1 {
                assert(rest[j - 1] == s[j]);
            }
        }
        if has_mask(s, m) {
            let i = choose|i: int| 0 <= i < s.len() && #[trigger] s[i].bitword == m;
            assert(rest[i - 1].bitword == m);
            assert(has_mask(rest, m)) by {
                assert(rest[i - 1].bitword == m);
            }
        }
    }
}

/// An index of the mask with no earlier carrier of it is `first_pos`.
pub proof fn lemma_first_pos_unique(s: Seq<Word>, m: u32, j: int)
    requires
        0 <= j < s.len(),
        s[j].bitword == m,
        forall|j2: int| 0 <= j2 < j ==> (#[trigger] s[j2]).bitword != m,
    ensures
        first_pos(s, m) == j,
{
    lemma_first_pos(s, m);
    if first_pos(s, m) > j {
        assert(s[j].bitword != m);
    }
    if first_pos(s, m) < j {
        assert(s[first_pos(s, m)].bitword != m);
    }
}

/// `d` is the deduplication of `s`: one word per distinct mask, in
/// ascending mask order, each the first occurrence in `s`'s order of its
/// anagram class.
pub open spec fn is_dedup_of(d: Seq<Word>, s: Seq<Word>) -> bool {
    &&& strictly_sorted_by_mask(d)
    &&& forall|m: u32| #[trigger] has_mask(d, m) <==> has_mask(s, m)
    &&& forall|t: int| 0 <= t < d.len() ==> is_first_rep(s, #[trigger] d[t])
}

/// Ordering of the deduplication sort keys: by mask, then by input
/// position.
pub open spec fn pair_le(a: (Word, usize), b: (Word, usize)) -> bool {
    a.0.bitword < b.0.bitword || (a.0.bitword == b.0.bitword && a.1 <= b.1)
}

pub open spec fn sorted_pairs(ps: Seq<(Word, usize)>) -> bool {
    forall|i: int, j: int| 0 <= i < j < ps.len() ==> pair_le(#[trigger] ps[i], #[trigger] ps[j])
}

/// The words of `s`, each paired with its position.
pub open spec fn index_pairs(s: Seq<Word>) -> Seq<(Word, usize)> {
    Seq::new(s.len(), |j: int| (s[j], j as usize))
}

spec fn pair_has_mask(ps: Seq<(Word, usize)>, m: u32) -> bool {
    exists|i: int| 0 <= i < ps.len() && (#[trigger] ps[i]).0.bitword == m
}

/// The pair of input position `j` stands somewhere among `ps`.
spec fn pair_at(ps: Seq<(Word, usize)>, s: Seq<Word>, j: int) -> bool {
    exists|k: int| 0 <= k < ps.len() && #[trigger] ps[k] == (s[j], j as usize)
}

/// Relies on rayon's `ParallelSliceMut::par_sort_unstable_by_key` with the
/// pair `(mask, input position)` as key: afterwards the vector holds the
/// same pairs, ordered by mask and, within one mask, by input position.
#[verifier::external_body]
fn sort_pairs_by_mask(pairs: &mut Vec<(Word, usize)>)
    ensures
        final(pairs)@.to_multiset() == old(pairs)@.to_multiset(),
        sorted_pairs(final(pairs)@),
{
    pairs.par_sort_unstable_by_key(|p| (p.0.bitword, p.1));
}

/// Collapse runs of equal masks in a `(mask, position)`-sorted pairing of
/// the input to one representative each: the first of every run, which
/// carries the smallest input position of its mask class and is therefore
/// the input's first occurrence of that letter set.
#[verifier::rlimit(60)]
fn dedup_first_by_mask(pairs: &Vec<(Word, usize)>, Ghost(s): Ghost<Seq<Word>>) -> (d: Vec<Word>)
    requires
        s.len() <= usize::MAX,
        sorted_pairs(pairs@),
        pairs@.to_multiset() == index_pairs(s).to_multiset(),
    ensures
        is_dedup_of(d@, s),
{
    let ghost ps = pairs@;
    proof {
        broadcast use group_to_multiset_ensures;

        // every pair is an input word with its position, and every input
        // position occurs among the pairs
        assert forall|k: int| 0 <= k < ps.len() implies (#[trigger] ps[k]).1 < s.len() && ps[
        k].0 == s[ps[k].1 as int] by {
            assert(ps.contains(ps[k]));
            assert(ps.to_multiset().count(ps[k]) > 0);
            assert(index_pairs(s).to_multiset().count(ps[k]) > 0);
            assert(index_pairs(s).contains(ps[k]));
            let j = choose|j: int| 0 <= j < index_pairs(s).len() && index_pairs(s)[j] == ps[k];
            assert(index_pairs(s)[j] == (s[j], j as usize));
            assert(ps[k].1 == j as usize && ps[k].0 == s[j]);
            assert(ps[k].1 as int == j);
        }
        assert forall|j: int| 0 <= j < s.len() implies #[trigger] pair_at(ps, s, j) by {
            assert(index_pairs(s)[j] == (s[j], j as usize));
            assert(index_pairs(s).contains((s[j], j as usize)));
            assert(index_pairs(s).to_multiset().count((s[j], j as usize)) > 0);
            assert(ps.to_multiset().count((s[j], j as usize)) > 0);
            assert(ps.contains((s[j], j as usize)));
            let k = choose|k: int| 0 <= k < ps.len() && ps[k] == (s[j], j as usize);
            assert(0 <= k < ps.len() && ps[k] == (s[j], j as usize));
        }
    }
    let mut d: Vec<Word> = Vec::new();
    let mut k: usize = 0;
    while k < pairs.len()
        invariant
            ps == pairs@,
            s.len() <= usize::MAX,
            sorted_pairs(ps),
            forall|k2: int|
                0 <= k2 < ps.len() ==> (#[trigger] ps[k2]).1 < s.len() && ps[k2].0 == s[ps[
                k2].1 as int],
            forall|j: int| 0 <= j < s.len() ==> #[trigger] pair_at(ps, s, j),
            0 <= k <= ps.len(),
            strictly_sorted_by_mask(d@),
            forall|m: u32| #[trigger] has_mask(d@, m) <==> pair_has_mask(ps.take(k as int), m),
            forall|t: int| 0 <= t < d@.len() ==> is_first_rep(s, #[trigger] d@[t]),
            d@.len() == 0 ==> k == 0,
            d@.len() > 0 ==> forall|k2: int|
                0 <= k2 < k ==> (#[trigger] ps[k2]).0.bitword <= d@[d@.len() - 1].bitword,
        decreases ps.len() - k,
    {
        let p = pairs[k];
        let w = p.0;
        let ghost prev = ps.take(k as int);
        let ghost next = ps.take(k as int + 1);
        let ghost d0 = d@;
        proof {
            assert(next =~= prev.push(ps[k as int]));
        }
        let n = d.len();
        let push_new = if n == 0 {
            true
        } else {
            w.bitword != d[n - 1].bitword
        };
        if push_new {
            proof {
                // the new mask lies strictly above every mask seen so far
                if n > 0 {
                    let last = d0[n - 1];
                    assert(has_mask(d0, last.bitword)) by {
                        assert(d0[n - 1].bitword == last.bitword);
                    }
                    assert(pair_has_mask(prev, last.bitword));
                    let k2 = choose|k2: int|
                        0 <= k2 < prev.len() && (#[trigger] prev[k2]).0.bitword == last.bitword;
                    assert(pair_le(ps[k2], ps[k as int]));
                    assert(last.bitword < w.bitword);
                }
                // its representative is the input's first occurrence: any
                // earlier input position with this mask would sort before it
                assert forall|j2: int| 0 <= j2 < p.1 implies (#[trigger] s[j2]).bitword
                    != w.bitword by {
                    if s[j2].bitword == w.bitword {
                        assert(ps[k as int].1 < s.len());
                        assert(pair_at(ps, s, j2));
                        let k2 = choose|k2: int|
                            0 <= k2 < ps.len() && #[trigger] ps[k2] == (s[j2], j2 as usize);
                        assert(ps[k2].1 == j2 as usize && ps[k2].0 == s[j2]);
                        if k2 == k {
                            assert(ps[k as int].1 == p.1);
                        } else if k2 > k {
                            assert(pair_le(ps[k as int], ps[k2]));
                        } else {
                            assert(ps[k2].0.bitword == w.bitword);
                            if d0.len() > 0 {
                                assert(ps[k2].0.bitword <= d0[d0.len() - 1].bitword);
                            }
                        }
                    }
                }
                assert(is_first_rep(s, w)) by {
                    assert(ps[k as int].0 == s[ps[k as int].1 as int]);
                    assert(s[p.1 as int] == w);
                    lemma_first_pos_unique(s, w.bitword, p.1 as int);
                }
            }
            d.push(w);
            proof {
                assert(d@ =~= d0.push(w));
                assert forall|m: u32| #[trigger] has_mask(d@, m) <==> pair_has_mask(next, m) by {
                    if has_mask(d@, m) {
                        let t = choose|t: int| 0 <= t < d@.len() && #[trigger] d@[t].bitword == m;
                        if t == n {
                            assert(next[k as int].0.bitword == m);
                        } else {
                            assert(has_mask(d0, m)) by {
                                assert(d0[t].bitword == m);
                            }
                            assert(pair_has_mask(prev, m));
                            let k2 = choose|k2: int|
                                0 <= k2 < prev.len() && (#[trigger] prev[k2]).0.bitword == m;
                            assert(next[k2].0.bitword == m);
                        }
                    }
                    if pair_has_mask(next, m) {
                        let k2 = choose|k2: int|
                            0 <= k2 < next.len() && (#[trigger] next[k2]).0.bitword == m;
                        if k2 < k {
                            assert(pair_has_mask(prev, m)) by {
                                assert(prev[k2].0.bitword == m);
                            }
                            assert(has_mask(d0, m));
                            let t = choose|t: int|
                                0 <= t < d0.len() && #[trigger] d0[t].bitword == m;
                            assert(d@[t].bitword == m);
                        } else {
                            assert(d@[n as int].bitword == m);
                        }
                    }
                }
                assert forall|t: int| 0 <= t < d@.len() implies is_first_rep(
                    s, #[trigger] d@[t]) by {
                    if t < n {
                        assert(d@[t] == d0[t]);
                        assert(is_first_rep(s, d0[t]));
                    } else {
                        assert(d@[t] == w);
                    }
                }
            }
        } else {
            proof {
                assert forall|m: u32| #[trigger] has_mask(d@, m) <==> pair_has_mask(next, m) by {
                    if has_mask(d@, m) {
                        assert(pair_has_mask(prev, m));
                        let k2 = choose|k2: int|
                            0 <= k2 < prev.len() && (#[trigger] prev[k2]).0.bitword == m;
                        assert(next[k2].0.bitword == m);
                    }
                    if pair_has_mask(next, m) {
                        let k2 = choose|k2: int|
                            0 <= k2 < next.len() && (#[trigger] next[k2]).0.bitword == m;
                        if k2 < k {
                            assert(pair_has_mask(prev, m)) by {
                                assert(prev[k2].0.bitword == m);
                            }
                        } else {
                            assert(has_mask(d@, m)) by {
                                assert(d@[d@.len() - 1].bitword == m);
                            }
                        }
                    }
                }
            }
        }
        k = k + 1;
    }
    proof {
        assert(ps.take(ps.len() as int) =~= ps);
        assert forall|m: u32| #[trigger] has_mask(d@, m) <==> has_mask(s, m) by {
            if has_mask(d@, m) {
                let k2 = choose|k2: int|
                    0 <= k2 < ps.len() && (#[trigger] ps[k2]).0.bitword == m;
                assert(s[ps[k2].1 as int].bitword == m);
            }
            if has_mask(s, m) {
                let j = choose|j: int| 0 <= j < s.len() && #[trigger] s[j].bitword == m;
                assert(pair_at(ps, s, j));
                let k2 = choose|k2: int|
                    0 <= k2 < ps.len() && #[trigger] ps[k2] == (s[j], j as usize);
                assert(pair_has_mask(ps, m)) by {
                    assert(ps[k2].0.bitword == m);
                }
            }
        }
    }
    d
}

/// How many words of `d` contain the letter `l` (in raw mask positions).
pub open spec fn spec_freq(d: Seq<Word>, l: int) -> nat
    decreases d.len(),
{
    if d.len() == 0 {
        0
    } else {
        spec_freq(d.drop_last(), l) + (if bit(d.last().bitword, l) {
            1nat
        } else {
            0nat
        })
    }
}

/// Letter `a` is ranked more common than letter `b`: strictly higher
/// frequency, with frequency ties broken towards the earlier letter.
pub open spec fn outranks(d: Seq<Word>, a: int, b: int) -> bool {
    spec_freq(d, a) > spec_freq(d, b) || (spec_freq(d, a) == spec_freq(d, b) && a < b)
}

/// How many letters among `0 .. n` are more common than `b`.
pub open spec fn crank(d: Seq<Word>, b: int, n: int) -> nat
    decreases n,
{
    if n <= 0 {
        0
    } else {
        crank(d, b, n - 1) + (if outranks(d, n - 1, b) {
            1nat
        } else {
            0nat
        })
    }
}

/// The rarity rank of letter `b` over the deduplicated words `d`: the number
/// of letters more common than it.  The most common letter gets 0, the
/// rarest 25.
pub open spec fn spec_rank(d: Seq<Word>, b: int) -> nat {
    crank(d, b, 26)
}

proof fn lemma_crank_le(d: Seq<Word>, b: int, n: int)
    requires
        n >= 0,
    ensures
        crank(d, b, n) <= n,
        n > b >= 0 ==> crank(d, b, n) < n,
    decreases n,
{
    if n > 0 {
        lemma_crank_le(d, b, n - 1);
    }
}

proof fn lemma_crank_mono(d: Seq<Word>, b1: int, b2: int, n: int)
    requires
        outranks(d, b1, b2),
        n >= 0,
    ensures
        crank(d, b1, n) <= crank(d, b2, n),
        n > b1 >= 0 ==> crank(d, b1, n) < crank(d, b2, n),
    decreases n,
{
    if n > 0 {
        lemma_crank_mono(d, b1, b2, n - 1);
    }
}

/// The rarity ranking is injective over the 26 letters and keeps every rank
/// below 26: a reproducible total order on the letters, determined by the
/// deduplicated word sequence alone.
pub proof fn lemma_rank_permutation(d: Seq<Word>)
    ensures
        forall|b: int| 0 <= b < 26 ==> #[trigger] spec_rank(d, b) < 26,
        forall|b1: int, b2: int|
            0 <= b1 < 26 && 0 <= b2 < 26 && b1 != b2 ==> #[trigger] spec_rank(d, b1)
                != #[trigger] spec_rank(d, b2),
{
    assert forall|b: int| 0 <= b < 26 implies #[trigger] spec_rank(d, b) < 26 by {
        lemma_crank_le(d, b, 26);
    }
    assert forall|b1: int, b2: int|
        0 <= b1 < 26 && 0 <= b2 < 26 && b1 != b2 implies #[trigger] spec_rank(d, b1)
        != #[trigger] spec_rank(d, b2) by {
        if outranks(d, b1, b2) {
            lemma_crank_mono(d, b1, b2, 26);
        } else {
            assert(outranks(d, b2, b1));
            lemma_crank_mono(d, b2, b1, 26);
        }
    }
}

/// Count, for each of the 26 letters, the deduplicated words containing it.
fn letter_freqs(words: &Vec<Word>) -> (f: Vec<usize>)
    ensures
        f@.len() == 26,
        forall|l: int| 0 <= l < 26 ==> #[trigger] f@[l] == spec_freq(words@, l),
{
    let ghost s = words@;
    let mut f: Vec<usize> = Vec::new();
    let mut l: usize = 0;
    while l < 26
        invariant
            s == words@,
            0 <= l <= 26,
            f@.len() == l,
            forall|l0: int| 0 <= l0 < l ==> #[trigger] f@[l0] == spec_freq(s, l0),
        decreases 26 - l,
    {
        let m: u32 = 1u32 << (l as u32);
        let mut count: usize = 0;
        let mut k: usize = 0;
        while k < words.len()
            invariant
                s == words@,
                0 <= k <= s.len(),
                l < 26,
                m == 1u32 << (l as u32),
                count == spec_freq(s.take(k as int), l as int),
                count <= k,
            decreases s.len() - k,
        {
            let w = words[k];
            proof {
                assert(s.take(k as int + 1) =~= s.take(k as int).push(s[k as int]));
                assert(s.take(k as int + 1).drop_last() =~= s.take(k as int));
                let j: u32 = l as u32;
                let bw: u32 = w.bitword;
                assert(j < 26 ==> (bw & (1u32 << j) != 0 <==> (bw >> j) & 1u32 == 1u32))
                    by (bit_vector);
            }
            if w.bitword & m != 0 {
                count = count + 1;
            }
            k = k + 1;
        }
        proof {
            assert(s.take(s.len() as int) =~= s);
        }
        f.push(count);
        l = l + 1;
    }
    f
}

/// Compute the rarity ranking of the 26 letters over the deduplicated words:
/// the destination bit position of each letter.
fn compute_rank(words: &Vec<Word>) -> (rank: Vec<u32>)
    ensures
        ranking_wf(rank@),
        forall|b: int| 0 <= b < 26 ==> #[trigger] rank@[b] == spec_rank(words@, b),
{
    let ghost s = words@;
    let f = letter_freqs(words);
    let mut rank: Vec<u32> = Vec::new();
    let mut b: usize = 0;
    while b < 26
        invariant
            s == words@,
            0 <= b <= 26,
            f@.len() == 26,
            forall|l: int| 0 <= l < 26 ==> #[trigger] f@[l] == spec_freq(s, l),
            rank@.len() == b,
            forall|b0: int| 0 <= b0 < b ==> #[trigger] rank@[b0] == spec_rank(s, b0),
        decreases 26 - b,
    {
        let mut cnt: u32 = 0;
        let mut a: usize = 0;
        while a < 26
            invariant
                s == words@,
                0 <= a <= 26,
                b < 26,
                f@.len() == 26,
                forall|l: int| 0 <= l < 26 ==> #[trigger] f@[l] == spec_freq(s, l),
                cnt == crank(s, b as int, a as int),
                cnt <= a,
            decreases 26 - a,
        {
            if f[a] > f[b] || (f[a] == f[b] && a < b) {
                cnt = cnt + 1;
            }
            a = a + 1;
        }
        proof {
            lemma_crank_le(s, b as int, 26);
        }
        rank.push(cnt);
        b = b + 1;
    }
    proof {
        lemma_rank_permutation(s);
    }
    rank
}

/// The mask `m` with each set letter bit among `0 .. n` moved to its ranked
/// position.
pub open spec fn remap_mask(m: u32, rank: Seq<u32>, n: int) -> u32
    decreases n,
{
    if n <= 0 {
        0u32
    } else {
        remap_mask(m, rank, n - 1) | (if bit(m, n - 1) {
            1u32 << rank[n - 1]
        } else {
            0u32
        })
    }
}

/// A word after remapping: ranked mask, same letters.
pub open spec fn spec_transform(w: Word, rank: Seq<u32>) -> Word {
    Word { bitword: remap_mask(w.bitword, rank, 26), bytes: w.bytes }
}

/// `remap_mask` has exactly the ranked images of the set letter bits, one
/// each, and so realises `remapped` and preserves the letter count.
pub proof fn lemma_remap_mask(m: u32, rank: Seq<u32>, n: int)
    requires
        ranking_wf(rank),
        n <= 26,
    ensures
        remap_mask(m, rank, n) < 0x4000000,
        forall|i: int| #[trigger] bit(remap_mask(m, rank, n), i) <==> exists|l: int|
            0 <= l < n && bit(m, l) && rank[l] == i,
        pc(remap_mask(m, rank, n), 26) == pc(m, n),
    decreases n,
{
    if n <= 0 {
        crate::bits::lemma_bit_zero();
        crate::bits::lemma_pc_none(0u32, 26);
    } else {
        lemma_remap_mask(m, rank, n - 1);
        let t0 = remap_mask(m, rank, n - 1);
        if bit(m, n - 1) {
            let r: u32 = rank[n - 1];
            let part: u32 = 1u32 << r;
            crate::bits::lemma_bit_single(r);
            assert(!bit(t0, r as int)) by {
                if bit(t0, r as int) {
                    let l = choose|l: int| 0 <= l < n - 1 && bit(m, l) && rank[l] == r as int;
                    assert(rank[l] == rank[n - 1]);
                }
            }
            assert(r < 26 && !((t0 >> r) & 1u32 == 1u32) ==> t0 & (1u32 << r) == 0
                && (t0 | (1u32 << r)) < 0x4000000 || t0 >= 0x4000000) by (bit_vector);
            crate::bits::lemma_bit_disjoint(t0, part);
            crate::bits::lemma_bit_or(t0, part);
            crate::bits::lemma_pc_set_bit(t0, r);
            assert forall|i: int| #[trigger] bit(remap_mask(m, rank, n), i) implies exists|l: int|
                0 <= l < n && bit(m, l) && rank[l] == i by {
                if bit(t0, i) {
                    let l = choose|l: int| 0 <= l < n - 1 && bit(m, l) && rank[l] == i;
                    assert(0 <= l < n && bit(m, l) && rank[l] == i);
                } else {
                    assert(i == r as int);
                    assert(0 <= n - 1 < n && bit(m, n - 1) && rank[n - 1] == i);
                }
            }
            assert forall|i: int| (exists|l: int| 0 <= l < n && bit(m, l) && rank[l] == i)
                implies #[trigger] bit(remap_mask(m, rank, n), i) by {
                let l = choose|l: int| 0 <= l < n && bit(m, l) && rank[l] == i;
                if l < n - 1 {
                    assert(bit(t0, i));
                } else {
                    assert(bit(part, i));
                }
            }
        } else {
            crate::bits::lemma_bit_zero();
            assert(t0 | 0u32 == t0) by (bit_vector);
            assert forall|i: int| #[trigger] bit(remap_mask(m, rank, n), i) implies exists|l: int|
                0 <= l < n && bit(m, l) && rank[l] == i by {
                let l = choose|l: int| 0 <= l < n - 1 && bit(m, l) && rank[l] == i;
                assert(0 <= l < n && bit(m, l) && rank[l] == i);
            }
            assert forall|i: int| (exists|l: int| 0 <= l < n && bit(m, l) && rank[l] == i)
                implies #[trigger] bit(remap_mask(m, rank, n), i) by {
                let l = choose|l: int| 0 <= l < n && bit(m, l) && rank[l] == i;
                assert(l < n - 1);
            }
        }
    }
}

/// `remap_mask` is the only mask related to `m` by `remapped`.
pub proof fn lemma_remapped_is_remap_mask(m: u32, rank: Seq<u32>, t: u32)
    requires
        ranking_wf(rank),
        remapped(m, rank, t),
    ensures
        t == remap_mask(m, rank, 26),
{
    lemma_remap_mask(m, rank, 26);
    let t2 = remap_mask(m, rank, 26);
    assert forall|i: int| 0 <= i < 26 implies (bit(t, i) <==> bit(t2, i)) by {
        if bit(t, i) {
            let l = choose|l: int| 0 <= l < 26 && bit(m, l) && rank[l] == i;
            assert(bit(t2, i));
        }
        if bit(t2, i) {
            let l = choose|l: int| 0 <= l < 26 && bit(m, l) && rank[l] == i;
            assert(bit(t, rank[l] as int));
        }
    }
    crate::bits::lemma_mask_ext(t, t2);
}

/// Remapping distinct masks gives distinct masks.
pub proof fn lemma_remap_mask_injective(m1: u32, m2: u32, rank: Seq<u32>)
    requires
        ranking_wf(rank),
        m1 < 0x4000000,
        m2 < 0x4000000,
        remap_mask(m1, rank, 26) == remap_mask(m2, rank, 26),
    ensures
        m1 == m2,
{
    lemma_remap_mask(m1, rank, 26);
    lemma_remap_mask(m2, rank, 26);
    assert forall|l: int| 0 <= l < 26 implies (bit(m1, l) <==> bit(m2, l)) by {
        if bit(m1, l) {
            assert(bit(remap_mask(m1, rank, 26), rank[l] as int));
            let l2 = choose|l2: int| 0 <= l2 < 26 && bit(m2, l2) && rank[l2] == rank[l] as int;
            assert(l2 == l);
        }
        if bit(m2, l) {
            assert(bit(remap_mask(m2, rank, 26), rank[l] as int));
            let l1 = choose|l1: int| 0 <= l1 < 26 && bit(m1, l1) && rank[l1] == rank[l] as int;
            assert(l1 == l);
        }
    }
    crate::bits::lemma_mask_ext(m1, m2);
}

/// The bucket of rarest-letter `b`: the remapped words of `d` whose highest
/// ranked bit is `b`, in `d`'s order.
pub open spec fn bucket_filter(d: Seq<Word>, rank: Seq<u32>, b: int) -> Seq<Word>
    decreases d.len(),
{
    if d.len() == 0 {
        Seq::empty()
    } else {
        let pre = bucket_filter(d.drop_last(), rank, b);
        let w = spec_transform(d.last(), rank);
        if spec_msl(w.bitword) == b {
            pre.push(w)
        } else {
            pre
        }
    }
}

/// Every bucket entry is the remapped image of some word of `d`.
pub proof fn lemma_bucket_filter_members(d: Seq<Word>, rank: Seq<u32>, b: int)
    ensures
        forall|t: int| 0 <= t < bucket_filter(d, rank, b).len() ==> exists|j: int|
            0 <= j < d.len() && #[trigger] bucket_filter(d, rank, b)[t] == spec_transform(
            d[j], rank),
        forall|t: int| 0 <= t < bucket_filter(d, rank, b).len() ==> spec_msl(
            (#[trigger] bucket_filter(d, rank, b)[t]).bitword) == b,
    decreases d.len(),
{
    if d.len() > 0 {
        lemma_bucket_filter_members(d.drop_last(), rank, b);
        let bf = bucket_filter(d, rank, b);
        let pre = bucket_filter(d.drop_last(), rank, b);
        assert forall|t: int| 0 <= t < bf.len() implies exists|j: int|
            0 <= j < d.len() && #[trigger] bf[t] == spec_transform(d[j], rank) by {
            if t < pre.len() {
                let j = choose|j: int|
                    0 <= j < d.drop_last().len() && #[trigger] pre[t] == spec_transform(
                    d.drop_last()[j], rank);
                assert(bf[t] == spec_transform(d[j], rank));
            } else {
                assert(bf[t] == spec_transform(d[d.len() - 1], rank));
            }
        }
    }
}

/// Distinct masks in, distinct masks within every bucket out.
pub proof fn lemma_bucket_filter_distinct(d: Seq<Word>, rank: Seq<u32>, b: int)
    requires
        ranking_wf(rank),
        strictly_sorted_by_mask(d),
        forall|j: int| 0 <= j < d.len() ==> (#[trigger] d[j]).bitword < 0x4000000,
    ensures
        forall|t1: int, t2: int|
            0 <= t1 < t2 < bucket_filter(d, rank, b).len() ==> (#[trigger] bucket_filter(
            d, rank, b)[t1]).bitword != (#[trigger] bucket_filter(d, rank, b)[t2]).bitword,
    decreases d.len(),
{
    if d.len() > 0 {
        lemma_bucket_filter_distinct(d.drop_last(), rank, b);
        lemma_bucket_filter_members(d.drop_last(), rank, b);
        let bf = bucket_filter(d, rank, b);
        let pre = bucket_filter(d.drop_last(), rank, b);
        assert forall|t1: int, t2: int| 0 <= t1 < t2 < bf.len() implies (#[trigger] bf[t1]).bitword
            != (#[trigger] bf[t2]).bitword by {
            if t2 == pre.len() && bf.len() == pre.len() + 1 {
                let j = choose|j: int|
                    0 <= j < d.drop_last().len() && #[trigger] pre[t1] == spec_transform(
                    d.drop_last()[j], rank);
                assert(d[j].bitword < d[d.len() - 1].bitword);
                if bf[t1].bitword == bf[t2].bitword {
                    lemma_remap_mask_injective(d[j].bitword, d[d.len() - 1].bitword, rank);
                }
            } else {
                assert(bf[t1] == pre[t1] && bf[t2] == pre[t2]);
            }
        }
    }
}

/// The table the search runs on: 26 buckets of remapped words, each word
/// under its rarest letter.  The deduplicated word sequence and the ranking
/// it was built from are carried as ghost provenance.
pub struct WordIndex {
    pub buckets: Vec<Vec<Word>>,
    pub dedup: Ghost<Seq<Word>>,
    pub rank: Ghost<Seq<u32>>,
}

impl WordIndex {
    /// Well-formedness with full provenance: the buckets are exactly the
    /// rarity-remapped deduplicated words, bucketed by rarest letter.
    pub open spec fn wf(self) -> bool {
        &&& self.buckets@.len() == 26
        &&& ranking_wf(self.rank@)
        &&& (forall|b: int|
            0 <= b < 26 ==> #[trigger] self.rank@[b] == spec_rank(self.dedup@, b))
        &&& strictly_sorted_by_mask(self.dedup@)
        &&& all_raw_wf(self.dedup@)
        &&& (forall|b: int|
            0 <= b < 26 ==> #[trigger] self.buckets@[b]@ == bucket_filter(
                self.dedup@, self.rank@, b))
    }

    /// The word `w` stands in some bucket.
    pub open spec fn contains_word(self, w: Word) -> bool {
        exists|b: int| 0 <= b < 26 && (#[trigger] self.buckets@[b]@).contains(w)
    }

    /// One bucket of the table.
    pub fn bucket(&self, b: usize) -> (r: &Vec<Word>)
        requires
            b < 26,
            self.wf(),
        ensures
            r@ == self.buckets@[b as int]@,
    {
        &self.buckets[b]
    }
}

/// What every bucket entry of a well-formed index satisfies: a well-formed
/// remapped word whose rarest letter is the bucket's, with no mask repeated
/// inside a bucket.
pub proof fn lemma_index_buckets(idx: WordIndex)
    requires
        idx.wf(),
    ensures
        forall|b: int, t: int|
            0 <= b < 26 && 0 <= t < idx.buckets@[b]@.len() ==> (#[trigger] idx.buckets@[b]@[
            t]).indexed_wf() && spec_msl(idx.buckets@[b]@[t].bitword) == b,
        forall|b: int, t1: int, t2: int|
            0 <= b < 26 && 0 <= t1 < t2 < idx.buckets@[b]@.len() ==> (#[trigger] idx.buckets@[
            b]@[t1]).bitword != (#[trigger] idx.buckets@[b]@[t2]).bitword,
{
    let d = idx.dedup@;
    let rank = idx.rank@;
    assert forall|b: int, t: int| 0 <= b < 26 && 0 <= t < idx.buckets@[b]@.len() implies (
    #[trigger] idx.buckets@[b]@[t]).indexed_wf() && spec_msl(idx.buckets@[b]@[t].bitword)
        == b by {
        lemma_bucket_filter_members(d, rank, b);
        let w = idx.buckets@[b]@[t];
        let j = choose|j: int| 0 <= j < d.len() && w == spec_transform(d[j], rank);
        lemma_remap_mask(d[j].bitword, rank, 26);
        assert(d[j].raw_wf());
        assert(w.indexed_wf());
    }
    assert forall|b: int, t1: int, t2: int|
        0 <= b < 26 && 0 <= t1 < t2 < idx.buckets@[b]@.len() implies (#[trigger] idx.buckets@[
    b]@[t1]).bitword != (#[trigger] idx.buckets@[b]@[t2]).bitword by {
        assert forall|j: int| 0 <= j < d.len() implies (#[trigger] d[j]).bitword
            < 0x4000000 by {
            assert(d[j].raw_wf());
        }
        lemma_bucket_filter_distinct(d, rank, b);
    }
}

/// The index `idx` is the word index of the parsed dictionary `input`.
pub open spec fn is_index_of(idx: WordIndex, input: Seq<Word>) -> bool {
    &&& idx.wf()
    &&& is_dedup_of(idx.dedup@, input)
}

/// Build the 26-bucket word index: sort by mask, collapse anagrams, rank
/// letters by rarity, remap every mask and bucket each word under its
/// rarest letter.
pub fn create_word_index(words: Vec<Word>) -> (idx: WordIndex)
    requires
        all_raw_wf(words@),
    ensures
        is_index_of(idx, words@),
{
    let ghost input = words@;
    let n = words.len();
    let mut pairs: Vec<(Word, usize)> = Vec::new();
    let mut i: usize = 0;
    while i < n
        invariant
            input == words@,
            n == input.len(),
            0 <= i <= input.len(),
            pairs@.len() == i,
            forall|k: int| 0 <= k < i ==> #[trigger] pairs@[k] == (input[k], k as usize),
        decreases input.len() - i,
    {
        pairs.push((words[i], i));
        i = i + 1;
    }
    proof {
        assert(input.len() <= usize::MAX);
        assert(pairs@ =~= index_pairs(input));
    }
    sort_pairs_by_mask(&mut pairs);
    let d = dedup_first_by_mask(&pairs, Ghost(input));
    proof {
        assert forall|t: int| 0 <= t < d@.len() implies (#[trigger] d@[t]).raw_wf() by {
            assert(is_first_rep(input, d@[t]));
            lemma_first_pos(input, d@[t].bitword);
            assert(input[first_pos(input, d@[t].bitword)].raw_wf());
        }
    }
    let rank = compute_rank(&d);
    let mut buckets: Vec<Vec<Word>> = Vec::new();
    let mut b: usize = 0;
    while b < 26
        invariant
            0 <= b <= 26,
            buckets@.len() == b,
            forall|b0: int| 0 <= b0 < b ==> #[trigger] buckets@[b0]@ == Seq::<Word>::empty(),
        decreases 26 - b,
    {
        buckets.push(Vec::new());
        b = b + 1;
    }
    let ghost ds = d@;
    let mut j: usize = 0;
    while j < d.len()
        invariant
            ds == d@,
            0 <= j <= ds.len(),
            all_raw_wf(ds),
            ranking_wf(rank@),
            rank@.len() == 26,
            buckets@.len() == 26,
            forall|b0: int|
                0 <= b0 < 26 ==> #[trigger] buckets@[b0]@ == bucket_filter(
                    ds.take(j as int), rank@, b0),
        decreases ds.len() - j,
    {
        let w0 = d[j];
        let ghost prev = ds.take(j as int);
        let ghost next = ds.take(j as int + 1);
        proof {
            assert(next.drop_last() =~= prev);
            assert(w0.raw_wf());
        }
        let (msl, w) = w0.transform(&rank);
        proof {
            lemma_remapped_is_remap_mask(w0.bitword, rank@, w.bitword);
            assert(w == spec_transform(w0, rank@));
        }
        let ghost buckets0 = buckets@;
        buckets[msl].push(w);
        proof {
            assert forall|b0: int| 0 <= b0 < 26 implies #[trigger] buckets@[b0]@ == bucket_filter(
                next, rank@, b0) by {
                if b0 == msl as int {
                    assert(buckets@[b0]@ =~= bucket_filter(prev, rank@, b0).push(w));
                } else {
                    assert(buckets@[b0]@ == buckets0[b0]@);
                }
            }
        }
        j = j + 1;
    }
    proof {
        assert(ds.take(ds.len() as int) =~= ds);
    }
    WordIndex { buckets, dedup: Ghost(d@), rank: Ghost(rank@) }
}

/// Anagram collapse as the search sees it: a well-formed index holds at
/// most one spelling per letter-set mask, so no two reported spellings can
/// share one.
pub proof fn lemma_one_spelling_per_mask(idx: WordIndex, w1: Word, w2: Word)
    requires
        idx.wf(),
        idx.contains_word(w1),
        idx.contains_word(w2),
        w1.bitword == w2.bitword,
    ensures
        w1 == w2,
{
    lemma_index_buckets(idx);
    let b1 = choose|b: int| 0 <= b < 26 && (#[trigger] idx.buckets@[b]@).contains(w1);
    let b2 = choose|b: int| 0 <= b < 26 && (#[trigger] idx.buckets@[b]@).contains(w2);
    let t1 = choose|t: int| 0 <= t < idx.buckets@[b1]@.len() && idx.buckets@[b1]@[t] == w1;
    let t2 = choose|t: int| 0 <= t < idx.buckets@[b2]@.len() && idx.buckets@[b2]@[t] == w2;
    assert(spec_msl(w1.bitword) == b1);
    assert(spec_msl(w2.bitword) == b2);
    assert(b1 == b2);
    if t1 != t2 {
        assert(idx.buckets@[b1]@[t1].bitword != idx.buckets@[b1]@[t2].bitword);
    }
}

proof fn lemma_dedup_unique_rec(d1: Seq<Word>, d2: Seq<Word>, s: Seq<Word>, lo: int)
    requires
        strictly_sorted_by_mask(d1),
        strictly_sorted_by_mask(d2),
        forall|m: u32| #[trigger] has_mask(d1, m) <==> (has_mask(s, m) && m > lo),
        forall|m: u32| #[trigger] has_mask(d2, m) <==> (has_mask(s, m) && m > lo),
        forall|t: int| 0 <= t < d1.len() ==> is_first_rep(s, #[trigger] d1[t]),
        forall|t: int| 0 <= t < d2.len() ==> is_first_rep(s, #[trigger] d2[t]),
    ensures
        d1 == d2,
    decreases d1.len(),
{
    if d1.len() == 0 {
        if d2.len() > 0 {
            assert(has_mask(d2, d2[0].bitword)) by {
                assert(d2[0].bitword == d2[0].bitword);
            }
            assert(has_mask(d1, d2[0].bitword));
        }
        assert(d1 =~= d2);
    } else if d2.len() == 0 {
        assert(has_mask(d1, d1[0].bitword)) by {
            assert(d1[0].bitword == d1[0].bitword);
        }
        assert(has_mask(d2, d1[0].bitword));
        assert(d1 =~= d2);
    } else {
        let m1 = d1[0].bitword;
        let m2 = d2[0].bitword;
        assert(has_mask(d1, m1)) by {
            assert(d1[0].bitword == m1);
        }
        assert(has_mask(d2, m2)) by {
            assert(d2[0].bitword == m2);
        }
        assert(has_mask(d2, m1) && has_mask(d1, m2));
        let t2 = choose|t: int| 0 <= t < d2.len() && #[trigger] d2[t].bitword == m1;
        if t2 > 0 {
            assert(d2[0].bitword < d2[t2].bitword);
        }
        let t1 = choose|t: int| 0 <= t < d1.len() && #[trigger] d1[t].bitword == m2;
        if t1 > 0 {
            assert(d1[0].bitword < d1[t1].bitword);
        }
        assert(m1 == m2);
        // both heads are the input's first occurrence of the same mask
        assert(is_first_rep(s, d1[0]) && is_first_rep(s, d2[0]));
        assert(d1[0] == s[first_pos(s, m1)] && d2[0] == s[first_pos(s, m1)]);
        assert(d1[0] == d2[0]);
        // the tails deduplicate the masks above the shared head mask
        let e1 = d1.drop_first();
        let e2 = d2.drop_first();
        assert(forall|t: int| 0 <= t < e1.len() ==> #[trigger] e1[t] == d1[t + 1]);
        assert(forall|t: int| 0 <= t < e2.len() ==> #[trigger] e2[t] == d2[t + 1]);
        assert(m1 > lo);
        assert forall|m: u32| #[trigger] has_mask(e1, m) implies (has_mask(s, m) && m
            > m1 as int) by {
            let t = choose|t: int| 0 <= t < e1.len() && #[trigger] e1[t].bitword == m;
            assert(d1[t + 1].bitword == m);
            assert(d1[0].bitword < d1[t + 1].bitword);
            assert(has_mask(d1, m)) by {
                assert(d1[t + 1].bitword == m);
            }
        }
        assert forall|m: u32| (has_mask(s, m) && m > m1 as int) implies #[trigger] has_mask(
            e1, m) by {
            assert(has_mask(d1, m));
            let t = choose|t: int| 0 <= t < d1.len() && #[trigger] d1[t].bitword == m;
            assert(t >= 1);
            assert(e1[t - 1].bitword == m);
        }
        assert forall|m: u32| #[trigger] has_mask(e2, m) implies (has_mask(s, m) && m
            > m1 as int) by {
            let t = choose|t: int| 0 <= t < e2.len() && #[trigger] e2[t].bitword == m;
            assert(d2[t + 1].bitword == m);
            assert(d2[0].bitword < d2[t + 1].bitword);
            assert(has_mask(d2, m)) by {
                assert(d2[t + 1].bitword == m);
            }
        }
        assert forall|m: u32| (has_mask(s, m) && m > m1 as int) implies #[trigger] has_mask(
            e2, m) by {
            assert(has_mask(d2, m));
            let t = choose|t: int| 0 <= t < d2.len() && #[trigger] d2[t].bitword == m;
            assert(t >= 1);
            assert(e2[t - 1].bitword == m);
        }
        assert forall|t: int| 0 <= t < e1.len() implies is_first_rep(s, #[trigger] e1[t]) by {
            assert(e1[t] == d1[t + 1]);
            assert(is_first_rep(s, d1[t + 1]));
        }
        assert forall|t: int| 0 <= t < e2.len() implies is_first_rep(s, #[trigger] e2[t]) by {
            assert(e2[t] == d2[t + 1]);
            assert(is_first_rep(s, d2[t + 1]));
        }
        lemma_dedup_unique_rec(e1, e2, s, m1 as int);
        assert(d1 =~= d2) by {
            assert(d1.len() == 1 + e1.len() && d2.len() == 1 + e2.len());
            assert forall|z: int| 0 <= z < d1.len() implies d1[z] == d2[z] by {
                if z > 0 {
                    assert(d1[z] == e1[z - 1] && d2[z] == e2[z - 1]);
                }
            }
        }
    }
}

/// A sequence of words has exactly one deduplication: the indexing pipeline
/// is deterministic in what survives.
pub proof fn lemma_dedup_unique(d1: Seq<Word>, d2: Seq<Word>, s: Seq<Word>)
    requires
        is_dedup_of(d1, s),
        is_dedup_of(d2, s),
    ensures
        d1 == d2,
{
    assert forall|m: u32| #[trigger] has_mask(d1, m) implies (has_mask(s, m) && m > -1) by {}
    assert forall|m: u32| (has_mask(s, m) && m > -1) implies #[trigger] has_mask(d1, m) by {}
    assert forall|m: u32| #[trigger] has_mask(d2, m) implies (has_mask(s, m) && m > -1) by {}
    assert forall|m: u32| (has_mask(s, m) && m > -1) implies #[trigger] has_mask(d2, m) by {}
    lemma_dedup_unique_rec(d1, d2, s, -1);
}

/// Indexing is idempotent: two indexes built from the same dictionary
/// agree on the surviving words, the ranking and every bucket.
pub proof fn lemma_index_deterministic(i1: WordIndex, i2: WordIndex, s: Seq<Word>)
    requires
        is_index_of(i1, s),
        is_index_of(i2, s),
    ensures
        i1.dedup@ == i2.dedup@,
        i1.rank@ == i2.rank@,
        forall|b: int| 0 <= b < 26 ==> #[trigger] i1.buckets@[b]@ == i2.buckets@[b]@,
{
    lemma_dedup_unique(i1.dedup@, i2.dedup@, s);
    assert(i1.rank@ =~= i2.rank@) by {
        assert(i1.rank@.len() == 26 && i2.rank@.len() == 26);
        assert forall|b: int| 0 <= b < 26 implies i1.rank@[b] == i2.rank@[b] by {
            assert(i1.rank@[b] == spec_rank(i1.dedup@, b));
            assert(i2.rank@[b] == spec_rank(i2.dedup@, b));
        }
    }
    assert forall|b: int| 0 <= b < 26 implies #[trigger] i1.buckets@[b]@ == i2.buckets@[b]@ by {
        assert(i1.buckets@[b]@ == bucket_filter(i1.dedup@, i1.rank@, b));
        assert(i2.buckets@[b]@ == bucket_filter(i2.dedup@, i2.rank@, b));
    }
}

} // verus!
