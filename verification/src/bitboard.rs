//! A fixed-capacity, bit-packed set of positions.

use vstd::prelude::*;
use vstd::set_lib::{lemma_int_range, lemma_len_intersect, lemma_len_subset, set_int_range};
use vstd::std_specs::cmp::PartialEqSpecImpl;

verus! {

/// Whether bit `k` of `word` is set (`k < 64`).
spec fn word_bit(word: u64, k: u64) -> bool {
    (word >> k) & 1 == 1
}

/// Whether bit `i` is set in the concatenation of `words`, least significant
/// bit of the first word first.
spec fn packed_bit(words: Seq<u64>, i: int) -> bool {
    word_bit(words[i / 64], (i % 64) as u64)
}

/// The word whose set bits are exactly `lo..hi` (`lo < hi <= 64`).
spec fn run_mask(lo: u64, hi: u64) -> u64 {
    (0xffff_ffff_ffff_ffffu64 >> ((64 - hi) as u64)) & (0xffff_ffff_ffff_ffffu64 << lo)
}

/// Number of 64-bit words needed to hold `nbits` bits.
spec fn words_for(nbits: nat) -> nat {
    (nbits + 63) / 64
}

/// A set of positions drawn from `0..capacity`, one bit per position.
#[derive(Debug)]
pub struct Bitboard {
    words: Vec<u64>,
    nbits: usize,
}

impl View for Bitboard {
    type V = Set<int>;

    /// The positions whose bit is set.
    closed spec fn view(&self) -> Set<int> {
        Set::new(|i: int| 0 <= i < self.nbits && packed_bit(self.words@, i))
    }
}

impl Bitboard {
    /// The storage holds exactly the words the capacity needs. Bits of the
    /// last word that lie past the capacity carry no meaning.
    #[verifier::type_invariant]
    spec fn inv(&self) -> bool {
        self.words@.len() == words_for(self.nbits as nat)
    }

    /// The number of positions the board can hold.
    pub closed spec fn spec_capacity(&self) -> usize {
        self.nbits
    }

    /// An empty board over the positions `0..nbits`.
    pub fn new(nbits: usize) -> (board: Self)
        ensures
            board@ == Set::<int>::empty(),
            board.capacity() == nbits,
    {
        let full: usize = nbits / 64;
        let nwords: usize = if nbits % 64 == 0 { full } else { full + 1 };
        let words: Vec<u64> = vec![0u64; nwords];
        proof {
            assert forall|i: int| 0 <= i < 64 * nwords implies !packed_bit(words@, i) by {
                let k: u64 = (i % 64) as u64;
                assert((0u64 >> k) & 1 == 0) by (bit_vector);
            }
        }
        Bitboard { words, nbits }
    }

    /// The number of positions the board can hold.
    #[verifier::when_used_as_spec(spec_capacity)]
    pub fn capacity(&self) -> (n: usize)
        ensures
            n == self.spec_capacity(),
    {
        self.nbits
    }

    /// Whether position `i` is in the set. Positions past the capacity never are.
    pub fn is_set(&self, i: usize) -> (present: bool)
        ensures
            present == self@.contains(i as int),
    {
        if i >= self.nbits {
            return false;
        }
        proof {
            use_type_invariant(self);
        }
        let word: u64 = self.words[i / 64];
        let k: u64 = (i % 64) as u64;
        (word >> k) & 1 == 1
    }

    /// Adds position `i` to the set.
    pub fn set(&mut self, i: usize)
        requires
            i < old(self).capacity(),
        ensures
            final(self)@ == old(self)@.insert(i as int),
            final(self).capacity() == old(self).capacity(),
    {
        proof {
            use_type_invariant(&*self);
        }
        let w: usize = i / 64;
        let k: u64 = (i % 64) as u64;
        let word: u64 = self.words[w];
        proof {
            lemma_word_with_bit(word, k);
        }
        self.words[w] = word | (1u64 << k);
    }

    /// Removes position `i` from the set.
    pub fn unset(&mut self, i: usize)
        requires
            i < old(self).capacity(),
        ensures
            final(self)@ == old(self)@.remove(i as int),
            final(self).capacity() == old(self).capacity(),
    {
        proof {
            use_type_invariant(&*self);
        }
        let w: usize = i / 64;
        let k: u64 = (i % 64) as u64;
        let word: u64 = self.words[w];
        proof {
            lemma_word_without_bit(word, k);
        }
        self.words[w] = word & !(1u64 << k);
    }

    /// Adds every position of line `line` to the set, where the positions
    /// `0..capacity` are cut into consecutive lines of `width` positions.
    pub fn set_whole_line(&mut self, line: usize, width: usize)
        requires
            (line + 1) * width <= old(self).capacity(),
        ensures
            final(self)@ == old(self)@.union(set_int_range(line * width, (line + 1) * width)),
            final(self).capacity() == old(self).capacity(),
    {
        proof {
            use_type_invariant(&*self);
            assert(0 <= line * width <= (line + 1) * width && (line + 1) * width == line * width
                + width) by (nonlinear_arith);
        }
        let start: usize = line * width;
        let end: usize = start + width;
        let mut i: usize = start;
        while i < end
            invariant
                start <= i <= end <= self.nbits,
                self.nbits == old(self).nbits,
                self.words@.len() == words_for(self.nbits as nat),
                self@ == old(self)@.union(set_int_range(start as int, i as int)),
            decreases end - i,
        {
            let w: usize = i / 64;
            let lo: u64 = (i % 64) as u64;
            let room: usize = 64 - i % 64;
            let hi: u64 = if end - i >= room { 64 } else { lo + (end - i) as u64 };
            let word: u64 = self.words[w];
            let mask: u64 = (u64::MAX >> (64 - hi)) & (u64::MAX << lo);
            proof {
                assert(mask == run_mask(lo, hi));
                lemma_word_with_run(word, lo, hi);
            }
            let ghost before = self@;
            self.words[w] = word | mask;
            let next: usize = i + (hi - lo) as usize;
            proof {
                let ghost target = old(self)@.union(set_int_range(start as int, next as int));
                assert forall|p: int| #[trigger] self@.contains(p) <==> target.contains(p) by {
                    assert(before.contains(p) <==> old(self)@.contains(p) || start <= p < i);
                    if 0 <= p < self.nbits && p / 64 == w {
                        let j: u64 = (p % 64) as u64;
                        assert(word_bit(word | mask, j) <==> word_bit(word, j) || lo <= j < hi);
                    }
                }
                assert(self@ =~= target);
            }
            i = next;
        }
    }

    /// Replaces the set by its complement within `0..capacity`.
    pub fn flip(&mut self)
        ensures
            final(self)@ == set_int_range(0, old(self).capacity() as int).difference(old(self)@),
            final(self).capacity() == old(self).capacity(),
    {
        proof {
            use_type_invariant(&*self);
        }
        let n: usize = self.words.len();
        let mut w: usize = 0;
        while w < n
            invariant
                w <= n,
                n == self.words@.len(),
                n == old(self).words@.len(),
                n == words_for(self.nbits as nat),
                self.nbits == old(self).nbits,
                forall|j: int| 0 <= j < w ==> self.words@[j] == !old(self).words@[j],
                forall|j: int| w <= j < n ==> self.words@[j] == old(self).words@[j],
            decreases n - w,
        {
            let word: u64 = self.words[w];
            self.words[w] = !word;
            w = w + 1;
        }
        proof {
            let ghost target = set_int_range(0, old(self).nbits as int).difference(old(self)@);
            assert forall|p: int| #[trigger] self@.contains(p) <==> target.contains(p) by {
                if 0 <= p < self.nbits {
                    lemma_word_complement(old(self).words@[p / 64]);
                    assert(packed_bit(self.words@, p) <==> !packed_bit(old(self).words@, p));
                }
            }
            assert(self@ =~= target);
        }
    }

    /// The number of positions in the set.
    pub fn count(&self) -> (n: usize)
        ensures
            n == self@.len(),
    {
        let mut n: usize = 0;
        let mut i: usize = 0;
        proof {
            assert(self@.intersect(set_int_range(0, 0)) =~= Set::<int>::empty());
        }
        while i < self.nbits
            invariant
                n <= i <= self.nbits,
                n == self@.intersect(set_int_range(0, i as int)).len(),
            decreases self.nbits - i,
        {
            proof {
                lemma_prefix_step(self@, i as int);
            }
            if self.is_set(i) {
                n = n + 1;
            }
            i = i + 1;
        }
        proof {
            assert(self@.intersect(set_int_range(0, i as int)) =~= self@);
        }
        n
    }

    /// The positions in the set, in ascending order.
    pub fn positions(&self) -> (list: Vec<usize>)
        ensures
            forall|p: usize| list@.contains(p) <==> self@.contains(p as int),
            forall|a: int, b: int| 0 <= a < b < list@.len() ==> list@[a] < list@[b],
    {
        let mut list: Vec<usize> = Vec::new();
        let mut i: usize = 0;
        while i < self.nbits
            invariant
                i <= self.nbits,
                forall|p: usize| list@.contains(p) <==> p < i && self@.contains(p as int),
                forall|a: int, b: int| 0 <= a < b < list@.len() ==> list@[a] < list@[b],
            decreases self.nbits - i,
        {
            if self.is_set(i) {
                let ghost before = list@;
                list.push(i);
                proof {
                    assert forall|p: usize| list@.contains(p) <==> p < i + 1 && self@.contains(
                        p as int,
                    ) by {
                        if list@.contains(p) {
                            let k = choose|k: int| 0 <= k < list@.len() && list@[k] == p;
                            if k < before.len() {
                                assert(before[k] == p);
                                assert(before.contains(p));
                            }
                        }
                        if p < i && self@.contains(p as int) {
                            assert(before.contains(p));
                            let k = choose|k: int| 0 <= k < before.len() && before[k] == p;
                            assert(list@[k] == p);
                        }
                        if p == i {
                            assert(list@[before.len() as int] == p);
                        }
                    }
                    assert forall|a: int, b: int| 0 <= a < b < list@.len() implies list@[a] < list@[b] by {
                        if b == before.len() {
                            assert(before.contains(before[a]));
                        }
                    }
                }
            }
            i = i + 1;
        }
        list
    }

    /// Every position of the set lies within the capacity, so the set is finite.
    pub proof fn lemma_bounded(self)
        ensures
            self@.finite(),
            self@.subset_of(set_int_range(0, self.capacity() as int)),
            self@.len() <= self.capacity(),
    {
        let all = set_int_range(0, self.nbits as int);
        lemma_int_range(0, self.nbits as int);
        assert(self@.subset_of(all));
        lemma_len_subset(self@, all);
    }
}

impl Clone for Bitboard {
    /// A board with the same capacity and the same positions.
    fn clone(&self) -> (copy: Self)
        ensures
            copy@ == self@,
            copy.capacity() == self.capacity(),
    {
        proof {
            use_type_invariant(self);
        }
        let words: Vec<u64> = self.words.clone();
        proof {
            assert(words@ =~= self.words@);
        }
        Bitboard { words, nbits: self.nbits }
    }
}

impl PartialEq for Bitboard {
    /// Whether two boards have the same capacity and hold the same positions.
    fn eq(&self, other: &Self) -> (same: bool) {
        proof {
            use_type_invariant(self);
            use_type_invariant(other);
        }
        if self.nbits != other.nbits {
            return false;
        }
        let n: usize = self.words.len();
        let mut w: usize = 0;
        while w < n
            invariant
                w <= n,
                n == self.words@.len(),
                n == other.words@.len(),
                n == words_for(self.nbits as nat),
                self.nbits == other.nbits,
                forall|p: int|
                    0 <= p < 64 * w && p < self.nbits ==> (packed_bit(self.words@, p) <==> packed_bit(
                        other.words@,
                        p,
                    )),
            decreases n - w,
        {
            let left: usize = self.nbits - 64 * w;
            let hi: u64 = if left >= 64 { 64 } else { left as u64 };
            let mask: u64 = u64::MAX >> (64 - hi);
            let a: u64 = self.words[w];
            let b: u64 = other.words[w];
            if a & mask != b & mask {
                proof {
                    lemma_low_bits_differ(a, b, hi);
                    let j = choose|j: u64| j < hi && word_bit(a, j) != word_bit(b, j);
                    let p: int = 64 * w + j;
                    assert(p / 64 == w && p % 64 == j);
                    assert(self@.contains(p) != other@.contains(p));
                }
                return false;
            }
            proof {
                lemma_low_bits_equal(a, b, hi);
                assert forall|p: int| 0 <= p < 64 * (w + 1) && p < self.nbits implies (packed_bit(
                    self.words@,
                    p,
                ) <==> packed_bit(other.words@, p)) by {
                    if p >= 64 * w {
                        let j: u64 = (p % 64) as u64;
                        assert(j < hi);
                        assert(word_bit(a, j) == word_bit(b, j));
                    }
                }
            }
            w = w + 1;
        }
        proof {
            assert(self@ =~= other@);
        }
        true
    }
}

impl Eq for Bitboard {}

impl PartialEqSpecImpl for Bitboard {
    open spec fn obeys_eq_spec() -> bool {
        true
    }

    open spec fn eq_spec(&self, other: &Self) -> bool {
        self.capacity() == other.capacity() && self@ == other@
    }
}

/// Two words that agree under the mask of their `hi` lowest bits agree on
/// each of those bits.
proof fn lemma_low_bits_equal(a: u64, b: u64, hi: u64)
    by (bit_vector)
    requires
        0 < hi <= 64,
        a & (0xffff_ffff_ffff_ffffu64 >> ((64 - hi) as u64)) == b & (0xffff_ffff_ffff_ffffu64 >> ((64
            - hi) as u64)),
    ensures
        forall|j: u64| j < hi ==> (#[trigger] word_bit(a, j) <==> word_bit(b, j)),
{
}

/// Two words that differ under the mask of their `hi` lowest bits differ on
/// one of those bits.
proof fn lemma_low_bits_differ(a: u64, b: u64, hi: u64)
    requires
        0 < hi <= 64,
        a & (0xffff_ffff_ffff_ffffu64 >> ((64 - hi) as u64)) != b & (0xffff_ffff_ffff_ffffu64 >> ((64
            - hi) as u64)),
    ensures
        exists|j: u64| j < hi && (#[trigger] word_bit(a, j) != word_bit(b, j)),
{
    let mask = 0xffff_ffff_ffff_ffffu64 >> ((64 - hi) as u64);
    let diff = (a ^ b) & mask;
    assert(diff != 0 && diff >> 0 == diff) by (bit_vector)
        requires
            a & mask != b & mask,
            diff == (a ^ b) & mask,
    ;
    let j = lemma_lowest_bit(diff, 0);
    assert(j < hi && word_bit(a, j) != word_bit(b, j)) by (bit_vector)
        requires
            0 < hi <= 64,
            j < 64,
            mask == 0xffff_ffff_ffff_ffffu64 >> ((64 - hi) as u64),
            diff == (a ^ b) & mask,
            word_bit(diff, j),
    ;
}

/// A word with a bit set at or above position `from` has a lowest such bit.
proof fn lemma_lowest_bit(word: u64, from: u64) -> (j: u64)
    requires
        from < 64,
        word >> from != 0,
    ensures
        from <= j < 64,
        word_bit(word, j),
    decreases 64 - from,
{
    if word_bit(word, from) {
        from
    } else {
        assert(from < 63 && word >> ((from + 1) as u64) != 0) by (bit_vector)
            requires
                from < 64,
                word >> from != 0,
                !word_bit(word, from),
        ;
        lemma_lowest_bit(word, (from + 1) as u64)
    }
}

/// Extending the prefix `0..i` of a set by position `i` adds one element if
/// `i` is in the set and none otherwise.
proof fn lemma_prefix_step(s: Set<int>, i: int)
    requires
        0 <= i,
    ensures
        s.intersect(set_int_range(0, i)).finite(),
        s.intersect(set_int_range(0, i + 1)).len() == s.intersect(set_int_range(0, i)).len() + if s.contains(i) {
            1int
        } else {
            0int
        },
{
    let before = s.intersect(set_int_range(0, i));
    let after = s.intersect(set_int_range(0, i + 1));
    lemma_int_range(0, i);
    lemma_len_intersect(set_int_range(0, i), s);
    assert(before =~= set_int_range(0, i).intersect(s));
    if s.contains(i) {
        assert(after =~= before.insert(i));
    } else {
        assert(after =~= before);
    }
}

/// Complementing a word inverts each of its bits.
proof fn lemma_word_complement(word: u64)
    by (bit_vector)
    ensures
        forall|j: u64| j < 64 ==> (#[trigger] word_bit(!word, j) <==> !word_bit(word, j)),
{
}

/// Or-ing in the run of bits `lo..hi` sets those bits and leaves the others
/// as they were.
proof fn lemma_word_with_run(word: u64, lo: u64, hi: u64)
    by (bit_vector)
    requires
        lo < hi <= 64,
    ensures
        forall|j: u64|
            j < 64 ==> (#[trigger] word_bit(
                word | run_mask(lo, hi),
                j,
            ) <==> word_bit(word, j) || lo <= j < hi),
{
}

/// Or-ing in bit `k` sets that bit and leaves the others as they were.
proof fn lemma_word_with_bit(word: u64, k: u64)
    by (bit_vector)
    requires
        k < 64,
    ensures
        forall|j: u64|
            j < 64 ==> (#[trigger] word_bit(word | (1u64 << k), j) <==> j == k || word_bit(word, j)),
{
}

/// Masking out bit `k` clears that bit and leaves the others as they were.
proof fn lemma_word_without_bit(word: u64, k: u64)
    by (bit_vector)
    requires
        k < 64,
    ensures
        forall|j: u64|
            j < 64 ==> (#[trigger] word_bit(word & !(1u64 << k), j) <==> j != k && word_bit(word, j)),
{
}

} // verus!
