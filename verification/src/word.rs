//! A candidate word: five ASCII lowercase letters, no letter repeated,
//! together with the 26-bit mask of the letters it contains.

use crate::bits::{bit, lemma_bit_disjoint, lemma_bit_or, lemma_bit_single, lemma_bit_zero,
    lemma_msl_below, lemma_pc_none, lemma_pc_set_bit, pc, popcount26, spec_msl};
use vstd::prelude::*;

verus! {

/// A word: a 26-bit letter mask plus the five literal letters for display.
/// Freshly parsed words carry the raw mask (bit `b - 'a'` per letter `b`);
/// indexed words carry the rarity-remapped mask instead.
#[derive(Clone, Copy, Debug)]
pub struct Word {
    pub bitword: u32,
    pub bytes: [u8; 5],
}

/// Letter position of a lowercase byte: `'a'` is 0, `'z'` is 25.
pub open spec fn off(b: u8) -> int {
    b - 97
}

pub open spec fn is_lower(b: u8) -> bool {
    97 <= b <= 122
}

/// Mask contributed by one byte: one bit for a lowercase letter, none else.
pub open spec fn letter_mask(b: u8) -> u32 {
    if is_lower(b) {
        1u32 << ((b - 97) as u32)
    } else {
        0u32
    }
}

/// The raw letter mask of a byte sequence.
pub open spec fn raw_mask(s: Seq<u8>) -> u32
    decreases s.len(),
{
    if s.len() == 0 {
        0u32
    } else {
        raw_mask(s.drop_last()) | letter_mask(s.last())
    }
}

pub open spec fn distinct_bytes(s: Seq<u8>) -> bool {
    forall|i: int, j: int| 0 <= i < j < s.len() ==> s[i] != s[j]
}

/// A line is accepted exactly when it is five ASCII lowercase letters,
/// pairwise distinct.
pub open spec fn parse_ok(s: Seq<u8>) -> bool {
    &&& s.len() == 5
    &&& forall|k: int| 0 <= k < 5 ==> is_lower(#[trigger] s[k])
    &&& distinct_bytes(s)
}

/// A line with a trailing carriage return trimmed.
pub open spec fn trim_cr(s: Seq<u8>) -> Seq<u8> {
    if s.len() > 0 && s.last() == 13u8 {
        s.drop_last()
    } else {
        s
    }
}

impl Word {
    /// Well-formedness of a freshly parsed word.
    pub open spec fn raw_wf(self) -> bool {
        &&& parse_ok(self.bytes@)
        &&& self.bitword == raw_mask(self.bytes@)
        &&& self.bitword < 0x4000000
        &&& popcount26(self.bitword) == 5
    }

    /// Well-formedness of an indexed word, whose mask has been remapped by a
    /// rarity ranking: still five distinct letter bits.
    pub open spec fn indexed_wf(self) -> bool {
        &&& parse_ok(self.bytes@)
        &&& self.bitword < 0x4000000
        &&& popcount26(self.bitword) == 5
    }

    /// Parse one candidate: accepted iff it is exactly five ASCII lowercase
    /// letters with no repeats; anything else is dropped.
    pub fn new(line: &[u8]) -> (r: Option<Word>)
        ensures
            r is Some <==> parse_ok(line@),
            r is Some ==> r->0.raw_wf() && r->0.bytes@ == line@,
    {
        if line.len() != 5 {
            assert(!parse_ok(line@));
            return None;
        }
        let mut bitword: u32 = 0;
        let mut count: usize = 0;
        let mut k: usize = 0;
        proof {
            lemma_bit_zero();
            lemma_pc_none(0u32, 26);
        }
        while k < 5
            invariant
                line@.len() == 5,
                0 <= k <= 5,
                forall|j: int| 0 <= j < k ==> is_lower(#[trigger] line@[j]),
                bitword == raw_mask(line@.take(k as int)),
                bitword < 0x4000000,
                count == pc(bitword, 26),
                forall|i: int| #[trigger] bit(bitword, i) <==> exists|j: int|
                    0 <= j < k && off(#[trigger] line@[j]) == i,
                distinct_bytes(line@.take(k as int)) <==> count == k,
                count <= k,
            decreases 5 - k,
        {
            let b: u8 = line[k];
            if b < 97 || b > 122 {
                assert(!parse_ok(line@));
                return None;
            }
            let o: u32 = (b - 97) as u32;
            let ghost prefix = line@.take(k as int);
            let ghost next = line@.take(k as int + 1);
            proof {
                assert(next =~= prefix.push(line@[k as int]));
                assert(next.drop_last() =~= prefix);
                lemma_bit_single(o);
            }
            let m: u32 = 1u32 << o;
            assert(m == letter_mask(b));
            if bitword & m == 0 {
                proof {
                    lemma_bit_disjoint(bitword, m);
                    lemma_bit_or(bitword, m);
                    assert(!bit(bitword, o as int));
                    lemma_pc_set_bit(bitword, o);
                    assert(bitword < 0x4000000 && o < 26 ==> (bitword | (1u32 << o))
                        < 0x4000000) by (bit_vector);
                    // the new byte differs from every earlier byte
                    assert forall|j: int| 0 <= j < k implies line@[j] != b by {
                        if line@[j] == b {
                            assert(bit(bitword, o as int));
                        }
                    }
                    assert(distinct_bytes(next) <==> distinct_bytes(prefix));
                }
                bitword = bitword | m;
                count = count + 1;
            } else {
                proof {
                    assert(o < 26 && bitword & (1u32 << o) != 0 ==> (bitword | (1u32 << o))
                        == bitword && (bitword >> o) & 1u32 == 1u32) by (bit_vector);
                    // a repeated letter: some earlier byte has the same offset
                    assert(bit(bitword, o as int));
                    assert(exists|j: int| 0 <= j < k && off(#[trigger] line@[j]) == o as int);
                    let j = choose|j: int| 0 <= j < k && off(#[trigger] line@[j]) == o as int;
                    assert(is_lower(line@[j]));
                    assert(line@[j] == b);
                    assert(next[j] == b && next[k as int] == b);
                    assert(!distinct_bytes(next));
                    assert(count < k + 1);
                }
            }
            k = k + 1;
        }
        proof {
            assert(line@.take(5) =~= line@);
        }
        if count == 5 {
            let w = Word { bitword, bytes: [line[0], line[1], line[2], line[3], line[4]] };
            proof {
                assert(w.bytes@ =~= line@);
            }
            Some(w)
        } else {
            assert(!parse_ok(line@));
            None
        }
    }

    /// Parse one dictionary line: a trailing carriage return is trimmed
    /// first, then the word is parsed.
    pub fn from_line(line: &[u8]) -> (r: Option<Word>)
        ensures
            r is Some <==> parse_ok(trim_cr(line@)),
            r is Some ==> r->0.raw_wf() && r->0.bytes@ == trim_cr(line@),
    {
        let n = line.len();
        if n > 0 && line[n - 1] == 13 {
            let trimmed = &line[0..n - 1];
            proof {
                assert(trimmed@ =~= trim_cr(line@));
            }
            Word::new(trimmed)
        } else {
            Word::new(line)
        }
    }
}

/// A rarity ranking: for each of the 26 letters, the bit position it is
/// moved to, every position below 26, no two letters sharing one.
pub open spec fn ranking_wf(rank: Seq<u32>) -> bool {
    &&& rank.len() == 26
    &&& forall|l: int| 0 <= l < 26 ==> #[trigger] rank[l] < 26
    &&& forall|l1: int, l2: int|
        0 <= l1 < 26 && 0 <= l2 < 26 && #[trigger] rank[l1] == #[trigger] rank[l2] ==> l1 == l2
}

/// The mask `t` is the mask `m` with every letter bit moved to its
/// rarity-ranked position.
pub open spec fn remapped(m: u32, rank: Seq<u32>, t: u32) -> bool {
    &&& t < 0x4000000
    &&& forall|l: int| 0 <= l < 26 ==> (bit(m, l) <==> #[trigger] bit(t, rank[l] as int))
    &&& forall|i: int| #[trigger] bit(t, i) ==> exists|l: int|
        0 <= l < 26 && bit(m, l) && rank[l] == i
}

impl Word {
    /// Recompute the mask with rarity-ranked bit positions and return the
    /// highest ranked position present: the word's rarest letter.
    pub fn transform(self, rank: &Vec<u32>) -> (r: (usize, Word))
        requires
            self.raw_wf(),
            ranking_wf(rank@),
        ensures
            r.1.bytes == self.bytes,
            r.1.indexed_wf(),
            remapped(self.bitword, rank@, r.1.bitword),
            r.0 < 26,
            spec_msl(r.1.bitword) == r.0 as int,
    {
        let mut t: u32 = 0;
        let mut msl: usize = 0;
        let mut j: usize = 0;
        proof {
            lemma_bit_zero();
            lemma_pc_none(0u32, 26);
        }
        while j < 5
            invariant
                self.raw_wf(),
                ranking_wf(rank@),
                rank@.len() == 26,
                0 <= j <= 5,
                t < 0x4000000,
                pc(t, 26) == j,
                forall|i: int| #[trigger] bit(t, i) <==> exists|jj: int|
                    0 <= jj < j && rank@[off(#[trigger] self.bytes@[jj])] == i,
                j == 0 ==> t == 0 && msl == 0,
                msl < 26,
                j > 0 ==> bit(t, msl as int),
                forall|i: int| #[trigger] bit(t, i) ==> i <= msl,
            decreases 5 - j,
        {
            let b: u8 = self.bytes[j];
            assert(is_lower(b));
            let o: usize = (b - 97) as usize;
            let ri: u32 = rank[o];
            assert(ri < 26);
            proof {
                lemma_bit_single(ri);
                // the target bit is fresh: an earlier byte mapping to it
                // would be an earlier equal byte
                assert forall|jj: int| 0 <= jj < j implies rank@[off(self.bytes@[jj])] != ri by {
                    if rank@[off(self.bytes@[jj])] == ri {
                        assert(off(self.bytes@[jj]) == o as int);
                        assert(self.bytes@[jj] == b);
                    }
                }
                assert(!bit(t, ri as int));
                assert(ri < 26 && !((t >> ri) & 1u32 == 1u32) ==> t & (1u32 << ri) == 0)
                    by (bit_vector);
                lemma_bit_disjoint(t, 1u32 << ri);
                lemma_bit_or(t, 1u32 << ri);
                lemma_pc_set_bit(t, ri);
                assert(t < 0x4000000 && ri < 26 ==> (t | (1u32 << ri)) < 0x4000000)
                    by (bit_vector);
            }
            t = t | (1u32 << ri);
            let rusize: usize = ri as usize;
            if rusize > msl || j == 0 {
                msl = rusize;
            }
            j = j + 1;
            assert(bit(t, ri as int));
        }
        proof {
            lemma_raw_mask_bits(self.bytes@);
            assert forall|l: int| 0 <= l < 26 implies (bit(self.bitword, l) <==> #[trigger] bit(
                t, rank@[l] as int)) by {
                if bit(self.bitword, l) {
                    let jj = choose|jj: int| 0 <= jj < 5 && off(#[trigger] self.bytes@[jj]) == l;
                    assert(rank@[off(self.bytes@[jj])] == rank@[l]);
                    assert(bit(t, rank@[l] as int));
                }
                if bit(t, rank@[l] as int) {
                    let jj = choose|jj: int|
                        0 <= jj < 5 && rank@[off(#[trigger] self.bytes@[jj])] == rank@[l] as int;
                    assert(off(self.bytes@[jj]) == l);
                    assert(bit(self.bitword, l));
                }
            }
            assert forall|i: int| #[trigger] bit(t, i) implies exists|l: int|
                0 <= l < 26 && bit(self.bitword, l) && rank@[l] == i by {
                let jj = choose|jj: int|
                    0 <= jj < 5 && rank@[off(#[trigger] self.bytes@[jj])] == i;
                let l = off(self.bytes@[jj]);
                assert(bit(self.bitword, l));
                assert(rank@[l] == i);
            }
            lemma_msl_below(t, 26);
            assert(spec_msl(t) == msl as int) by {
                if spec_msl(t) < msl as int {
                    assert(!bit(t, msl as int));
                }
            }
        }
        (msl, Word { bitword: t, bytes: self.bytes })
    }
}

/// Bits of a raw mask are exactly the offsets of the bytes.
pub proof fn lemma_raw_mask_bits(s: Seq<u8>)
    requires
        forall|k: int| 0 <= k < s.len() ==> is_lower(#[trigger] s[k]),
    ensures
        forall|i: int| #[trigger] bit(raw_mask(s), i) <==> exists|j: int|
            0 <= j < s.len() && off(#[trigger] s[j]) == i,
    decreases s.len(),
{
    if s.len() == 0 {
        lemma_bit_zero();
    } else {
        lemma_raw_mask_bits(s.drop_last());
        lemma_bit_or(raw_mask(s.drop_last()), letter_mask(s.last()));
        lemma_bit_single((s.last() - 97) as u32);
        assert forall|i: int| #[trigger] bit(raw_mask(s), i) implies exists|j: int|
            0 <= j < s.len() && off(#[trigger] s[j]) == i by {
            if bit(raw_mask(s.drop_last()), i) {
                let j = choose|j: int|
                    0 <= j < s.drop_last().len() && off(s.drop_last()[j]) == i;
                assert(s[j] == s.drop_last()[j]);
            } else {
                assert(off(s[s.len() - 1]) == i);
            }
        }
        assert forall|i: int|
            (exists|j: int| 0 <= j < s.len() && off(#[trigger] s[j]) == i) implies #[trigger] bit(
            raw_mask(s), i) by {
            let j = choose|j: int| 0 <= j < s.len() && off(s[j]) == i;
            if j < s.len() - 1 {
                assert(s.drop_last()[j] == s[j]);
                assert(bit(raw_mask(s.drop_last()), i));
            } else {
                assert(bit(letter_mask(s.last()), i));
            }
        }
    }
}

} // verus!
