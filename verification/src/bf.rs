//! A Bloom filter over a packed bit store.

use crate::bf_laws::{
    lemma_fold_keeps, lemma_fold_wf, lemma_insert_contains, lemma_insert_keeps,
    lemma_union_contains_both, lemma_union_keeps,
};
use crate::hash::{item_probe, jenkins_hash, leveldb_bloom_hash, probe};
use vstd::prelude::*;

verus! {

/// Number of bits held by one word of the bit store.
pub const BITS_PER_WORD: usize = 64;

/// Number of words needed to hold `bit_count` bits.
pub open spec fn words_for(bit_count: nat) -> nat {
    (bit_count + 63) / 64
}

/// Whether bit `k` of `word` is set, for `k` below 64.
pub open spec fn word_bit(word: u64, k: nat) -> bool {
    word & (1u64 << (k as u64)) != 0
}

/// The bits of a sequence of words, lowest bit of the first word first.
pub open spec fn bits_of(words: Seq<u64>) -> Seq<bool> {
    Seq::new(64 * words.len(), |k: int| word_bit(words[k / 64], (k % 64) as nat))
}

/// No bit of the zero word is set.
proof fn lemma_zero_word(k: u64)
    by (bit_vector)
    requires
        k < 64,
    ensures
        0u64 & (1u64 << k) == 0,
{
}

/// Or-ing in the mask of bit `k` sets bit `k` and leaves the others.
proof fn lemma_set_bit(word: u64, k: u64, j: u64)
    by (bit_vector)
    requires
        k < 64,
        j < 64,
    ensures
        ((word | (1u64 << k)) & (1u64 << j) != 0) == ((word & (1u64 << j) != 0) || j == k),
{
}

/// A bit of the or of two words is set where it is set in either.
proof fn lemma_or_bit(a: u64, b: u64, j: u64)
    by (bit_vector)
    requires
        j < 64,
    ensures
        ((a | b) & (1u64 << j) != 0) == ((a & (1u64 << j) != 0) || (b & (1u64 << j) != 0)),
{
}

/// A packed array of bits that can be tested and set, never cleared.
pub struct BitVector(Vec<u64>);

impl View for BitVector {
    type V = Seq<bool>;

    closed spec fn view(&self) -> Seq<bool> {
        bits_of(self.0@)
    }
}

impl BitVector {
    /// A store of `w` bits, rounded up to whole words, all clear.
    pub fn new(w: usize) -> (r: BitVector)
        ensures
            r@.len() == 64 * words_for(w as nat),
            forall|k: int| 0 <= k < r@.len() ==> !r@[k],
    {
        let blen: usize = w / BITS_PER_WORD + (if w % BITS_PER_WORD != 0 { 1usize } else { 0usize });
        let mut bits: Vec<u64> = Vec::new();
        bits.resize(blen, 0);
        proof {
            assert forall|k: int| 0 <= k < 64 * blen implies !bits_of(bits@)[k] by {
                assert(bits@[k / 64] == 0u64);
                lemma_zero_word((k % 64) as u64);
            }
        }
        BitVector(bits)
    }

    /// Whether bit `bit` is set.
    pub fn test(&self, bit: usize) -> (r: bool)
        requires
            bit < self@.len(),
        ensures
            r == self@[bit as int],
    {
        let off: u32 = (bit % BITS_PER_WORD) as u32;
        self.0[bit / BITS_PER_WORD] & (1u64 << off) != 0
    }

    /// Sets bit `bit`; every other bit keeps its value.
    pub fn set(&mut self, bit: usize)
        requires
            bit < old(self)@.len(),
        ensures
            final(self)@ == old(self)@.update(bit as int, true),
    {
        let off: u32 = (bit % BITS_PER_WORD) as u32;
        let idx: usize = bit / BITS_PER_WORD;
        let word: u64 = self.0[idx] | (1u64 << off);
        self.0[idx] = word;
        proof {
            let before = old(self).0@;
            let after = self.0@;
            assert forall|k: int| 0 <= k < 64 * after.len() implies bits_of(after)[k] == bits_of(
                before,
            ).update(bit as int, true)[k] by {
                if k / 64 == idx as int {
                    lemma_set_bit(before[idx as int], off as u64, (k % 64) as u64);
                }
            }
            assert(self@ =~= old(self)@.update(bit as int, true));
        }
    }

    /// Number of words in the store.
    pub fn len(&self) -> (n: usize)
        ensures
            64 * n == self@.len(),
    {
        self.0.len()
    }
}

/// Whether one of the first `n` probes of `item`, in a table of `width` slots,
/// lands on slot `k`.
pub open spec fn probed(item: Seq<u8>, n: nat, width: nat, k: int) -> bool {
    exists|i: nat| i < n && #[trigger] item_probe(item, i, width) == k
}

/// One more probe adds its own slot to those that are hit.
pub proof fn lemma_probed_step(item: Seq<u8>, n: nat, width: nat, k: int)
    ensures
        probed(item, n + 1, width, k) == (probed(item, n, width, k) || item_probe(item, n, width)
            == k),
{
    if probed(item, n + 1, width, k) {
        let i = choose|i: nat| i < n + 1 && #[trigger] item_probe(item, i, width) == k;
        if i < n {
            assert(probed(item, n, width, k));
        }
    }
    if probed(item, n, width, k) {
        let i = choose|i: nat| i < n && #[trigger] item_probe(item, i, width) == k;
        assert(i < n + 1 && item_probe(item, i, width) == k);
    }
    if item_probe(item, n, width) == k {
        assert(n < n + 1 && item_probe(item, n, width) == k);
    }
}

/// What a Bloom filter is: its bit capacity, the number of probes per item,
/// and the bits of its store, which holds whole words and so may be longer
/// than `width`.
pub struct FilterModel {
    pub width: nat,
    pub hashes: nat,
    pub bits: Seq<bool>,
}

impl FilterModel {
    /// The dimensions are positive and the store is sized to the width.
    pub open spec fn wf(self) -> bool {
        &&& 1 <= self.width <= u32::MAX
        &&& 1 <= self.hashes <= u32::MAX
        &&& self.bits.len() == 64 * words_for(self.width)
    }

    /// The filter of the given dimensions with no bit set.
    pub open spec fn empty(width: nat, hashes: nat) -> FilterModel {
        FilterModel { width, hashes, bits: Seq::new(64 * words_for(width), |k: int| false) }
    }

    /// Whether every probe of `item` finds its bit set.
    pub open spec fn contains(self, item: Seq<u8>) -> bool {
        forall|i: nat|
            i < self.hashes ==> self.bits[#[trigger] item_probe(item, i, self.width) as int]
    }

    /// The filter with the bits of all probes of `item` set as well.
    pub open spec fn insert(self, item: Seq<u8>) -> FilterModel {
        FilterModel {
            bits: Seq::new(
                self.bits.len(),
                |k: int| self.bits[k] || probed(item, self.hashes, self.width, k),
            ),
            ..self
        }
    }

    /// Whether the two stores hold the same number of words.
    pub open spec fn mergeable(self, other: FilterModel) -> bool {
        self.bits.len() == other.bits.len()
    }

    /// The filter with the bits of `other` set as well.
    pub open spec fn union(self, other: FilterModel) -> FilterModel {
        FilterModel {
            bits: Seq::new(self.bits.len(), |k: int| self.bits[k] || other.bits[k]),
            ..self
        }
    }

    /// Whether the store holds an even number of words.
    pub open spec fn compressible(self) -> bool {
        self.bits.len() % 128 == 0
    }

    /// The filter of half the width whose store is the lower half of the old
    /// store with the upper half laid over it.
    pub open spec fn fold(self) -> FilterModel {
        let half = self.bits.len() / 2;
        FilterModel {
            width: self.width / 2,
            hashes: self.hashes,
            bits: Seq::new(half, |k: int| self.bits[k] || self.bits[k + half]),
        }
    }
}

/// The reason a merge is refused.
#[derive(Debug, Clone, Copy, PartialEq, Eq, Structural)]
pub enum MergeError {
    /// The two stores differ in their number of words.
    DimensionMismatch,
}

/// A Bloom filter: a set of byte strings that answers membership queries with
/// no false negatives.
pub struct BFilter {
    width: u32,
    hashes: u32,
    bits: BitVector,
}

impl View for BFilter {
    type V = FilterModel;

    closed spec fn view(&self) -> FilterModel {
        FilterModel { width: self.width as nat, hashes: self.hashes as nat, bits: self.bits@ }
    }
}

impl BFilter {
    /// An empty filter of `width` bits that probes `hashes` times per item.
    pub fn new(width: u32, hashes: u32) -> (r: BFilter)
        requires
            width >= 1,
            hashes >= 1,
        ensures
            r@ == FilterModel::empty(width as nat, hashes as nat),
            r@.wf(),
    {
        let bits = BitVector::new(width as usize);
        let r = BFilter { width, hashes, bits };
        proof {
            assert(r@.bits =~= FilterModel::empty(width as nat, hashes as nat).bits);
        }
        r
    }

    /// The bit capacity.
    pub fn width(&self) -> (w: u32)
        ensures
            w == self@.width,
    {
        self.width
    }

    /// The number of probes per item.
    pub fn hashes(&self) -> (k: u32)
        ensures
            k == self@.hashes,
    {
        self.hashes
    }

    /// Whether the store holds an even number of words, as `compress` asks.
    pub fn can_compress(&self) -> (ok: bool)
        ensures
            ok == self@.compressible(),
    {
        self.bits.len() % 2 == 0
    }

    /// Sets the bit of every probe of `b`. From then on the filter contains
    /// `b`, and it still contains whatever it contained before.
    pub fn add(&mut self, b: &[u8])
        requires
            old(self)@.wf(),
        ensures
            final(self)@ == old(self)@.insert(b@),
            final(self)@.wf(),
            final(self)@.contains(b@),
            forall|x: Seq<u8>| old(self)@.contains(x) ==> #[trigger] final(self)@.contains(x),
    {
        let h1: u32 = leveldb_bloom_hash(b);
        let h2: u32 = jenkins_hash(b);
        let ghost before = self@;
        let mut i: u32 = 0;
        while i < self.hashes
            invariant
                before.wf(),
                i <= self.hashes,
                self.width == before.width,
                self.hashes == before.hashes,
                h1 == crate::hash::leveldb_bloom_hash_spec(b@),
                h2 == crate::hash::jenkins_hash_spec(b@),
                self.bits@.len() == before.bits.len(),
                forall|k: int|
                    0 <= k < before.bits.len() ==> self.bits@[k] == (before.bits[k] || probed(
                        b@,
                        i as nat,
                        before.width,
                        k,
                    )),
            decreases self.hashes - i,
        {
            let pos: usize = probe(h1, h2, i, self.width) as usize;
            self.bits.set(pos);
            proof {
                assert forall|k: int| 0 <= k < before.bits.len() implies self.bits@[k] == (
                before.bits[k] || probed(b@, (i + 1) as nat, before.width, k)) by {
                    lemma_probed_step(b@, i as nat, before.width, k);
                }
            }
            i += 1;
        }
        proof {
            assert(self@.bits =~= before.insert(b@).bits);
            lemma_insert_contains(before, b@);
            assert forall|x: Seq<u8>| before.contains(x) implies #[trigger] self@.contains(x) by {
                lemma_insert_keeps(before, x, b@);
            }
        }
    }

    /// Whether every probe of `b` finds its bit set.
    pub fn contains(&self, b: &[u8]) -> (r: bool)
        requires
            self@.wf(),
        ensures
            r == self@.contains(b@),
    {
        let h1: u32 = leveldb_bloom_hash(b);
        let h2: u32 = jenkins_hash(b);
        let mut i: u32 = 0;
        while i < self.hashes
            invariant
                self@.wf(),
                i <= self.hashes,
                h1 == crate::hash::leveldb_bloom_hash_spec(b@),
                h2 == crate::hash::jenkins_hash_spec(b@),
                forall|j: nat|
                    j < i ==> self.bits@[#[trigger] item_probe(b@, j, self.width as nat) as int],
            decreases self.hashes - i,
        {
            let pos: usize = probe(h1, h2, i, self.width) as usize;
            if !self.bits.test(pos) {
                proof {
                    assert(!self@.bits[item_probe(b@, i as nat, self@.width) as int]);
                }
                return false;
            }
            i += 1;
        }
        true
    }

    /// Sets every bit that is set in `other`, if the two stores hold the same
    /// number of words; otherwise leaves the filter as it is. Either way the
    /// filter still contains whatever it contained before; after a merge with
    /// a filter of the same width and number of probes it also contains
    /// whatever `other` contains.
    pub fn merge(&mut self, other: &BFilter) -> (r: Result<(), MergeError>)
        requires
            old(self)@.wf(),
            other@.wf(),
        ensures
            r is Ok <==> old(self)@.mergeable(other@),
            r is Ok ==> final(self)@ == old(self)@.union(other@),
            r is Err ==> r == Err::<(), MergeError>(MergeError::DimensionMismatch) && *final(self)
                == *old(self),
            final(self)@.wf(),
            forall|x: Seq<u8>| old(self)@.contains(x) ==> #[trigger] final(self)@.contains(x),
            old(self)@.width == other@.width && old(self)@.hashes == other@.hashes ==> r is Ok
                && forall|x: Seq<u8>| other@.contains(x) ==> #[trigger] final(self)@.contains(x),
    {
        if self.bits.len() != other.bits.len() {
            return Err(MergeError::DimensionMismatch);
        }
        let n: usize = self.bits.0.len();
        let ghost before = self.bits.0@;
        let mut i: usize = 0;
        while i < n
            invariant
                i <= n,
                self.width == old(self).width,
                self.hashes == old(self).hashes,
                before == old(self).bits.0@,
                self.bits.0@.len() == n,
                other.bits.0@.len() == n,
                before.len() == n,
                forall|j: int| 0 <= j < i ==> self.bits.0@[j] == before[j] | other.bits.0@[j],
                forall|j: int| i <= j < n ==> self.bits.0@[j] == before[j],
            decreases n - i,
        {
            let word: u64 = self.bits.0[i] | other.bits.0[i];
            self.bits.0[i] = word;
            i += 1;
        }
        proof {
            let merged = old(self)@.union(other@).bits;
            assert forall|k: int| 0 <= k < 64 * n implies self@.bits[k] == merged[k] by {
                lemma_or_bit(before[k / 64], other.bits.0@[k / 64], (k % 64) as u64);
            }
            assert(self@.bits =~= old(self)@.union(other@).bits);
            assert forall|x: Seq<u8>| old(self)@.contains(x) implies #[trigger] self@.contains(
                x,
            ) by {
                lemma_union_keeps(old(self)@, other@, x);
            }
            if old(self)@.width == other@.width && old(self)@.hashes == other@.hashes {
                assert forall|x: Seq<u8>| other@.contains(x) implies #[trigger] self@.contains(
                    x,
                ) by {
                    lemma_union_contains_both(old(self)@, other@, x);
                }
            }
        }
        Ok(())
    }

    /// Halves the width: the upper half of the words is laid over the lower
    /// half. The store must hold an even number of words.
    ///
    /// Where the old width is a multiple of 128, so that each half is made of
    /// whole words, the filter still contains whatever it contained before.
    /// For other widths a probe may land on another bit than the one its old
    /// bit was folded onto, and items may be lost.
    pub fn compress(&mut self)
        requires
            old(self)@.wf(),
            old(self)@.compressible(),
        ensures
            final(self)@ == old(self)@.fold(),
            final(self)@.wf(),
            old(self)@.width % 128 == 0 ==> forall|x: Seq<u8>|
                old(self)@.contains(x) ==> #[trigger] final(self)@.contains(x),
    {
        let half_width: u32 = self.width / 2;
        proof {
            lemma_fold_wf(self@);
        }
        let mut bits = BitVector::new(half_width as usize);
        let blen: usize = bits.0.len();
        let mut idx: usize = 0;
        while idx < blen
            invariant
                idx <= blen,
                bits.0@.len() == blen,
                self.bits.0@.len() == 2 * blen,
                2 * blen <= usize::MAX,
                forall|j: int|
                    0 <= j < idx ==> bits.0@[j] == self.bits.0@[j] | self.bits.0@[j + blen],
            decreases blen - idx,
        {
            let word: u64 = self.bits.0[idx] | self.bits.0[idx + blen];
            bits.0[idx] = word;
            idx += 1;
        }
        proof {
            let half = 64 * blen;
            assert forall|k: int| 0 <= k < half implies bits@[k] == (self.bits@[k] || self.bits@[k
                + half]) by {
                lemma_or_bit(
                    self.bits.0@[k / 64],
                    self.bits.0@[k / 64 + blen],
                    (k % 64) as u64,
                );
            }
            assert(bits@ =~= old(self)@.fold().bits);
        }
        self.width = half_width;
        self.bits = bits;
        proof {
            if old(self)@.width % 128 == 0 {
                assert forall|x: Seq<u8>| old(self)@.contains(x) implies #[trigger] self@.contains(
                    x,
                ) by {
                    lemma_fold_keeps(old(self)@, x);
                }
            }
        }
    }
}

} // verus!
