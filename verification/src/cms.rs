//! A Count-Min sketch: a table of counters that estimates how often each byte
//! string was added, never from below.
//!
//! Counters saturate: a sum that does not fit in 32 bits is held as
//! `u32::MAX`, in `add`, `merge` and `compress` alike.

use crate::cms_laws::{
    lemma_fold_never_lowers, lemma_insert_never_lowers, lemma_insert_raises_estimate,
    lemma_insert_wf, lemma_min_cell_is_minimum, lemma_sum_estimate,
};
use crate::hash::{item_probe, jenkins_hash, leveldb_bloom_hash, probe};
use vstd::prelude::*;

verus! {

/// The sum of two counters, held at `u32::MAX` where it does not fit.
pub open spec fn sat_add(a: u32, b: u32) -> u32 {
    if a + b > u32::MAX {
        u32::MAX
    } else {
        (a + b) as u32
    }
}

/// The smaller of two counters.
pub open spec fn min_u32(a: u32, b: u32) -> u32 {
    if a <= b {
        a
    } else {
        b
    }
}

/// What a sketch is: `depth` rows of `width` counters each.
pub struct SketchModel {
    pub width: nat,
    pub depth: nat,
    pub table: Seq<Seq<u32>>,
}

impl SketchModel {
    /// The width is positive and the table has the stated shape.
    pub open spec fn wf(self) -> bool {
        &&& 1 <= self.width <= u32::MAX
        &&& self.depth <= u32::MAX
        &&& self.table.len() == self.depth
        &&& forall|i: int| 0 <= i < self.depth ==> (#[trigger] self.table[i]).len() == self.width
    }

    /// The sketch of the given shape with every counter at zero.
    pub open spec fn empty(width: nat, depth: nat) -> SketchModel {
        SketchModel {
            width,
            depth,
            table: Seq::new(depth, |i: int| Seq::new(width, |j: int| 0u32)),
        }
    }

    /// The counter that `item` is counted by in row `i`.
    pub open spec fn cell(self, item: Seq<u8>, i: nat) -> u32 {
        self.table[i as int][item_probe(item, i, self.width) as int]
    }

    /// The sketch after `count` was added to the counter of `item` in every
    /// row.
    pub open spec fn insert(self, item: Seq<u8>, count: u32) -> SketchModel {
        SketchModel {
            table: Seq::new(
                self.depth,
                |i: int|
                    self.table[i].update(
                        item_probe(item, i as nat, self.width) as int,
                        sat_add(self.cell(item, i as nat), count),
                    ),
            ),
            ..self
        }
    }

    /// The least of the counters of `item` in the first `n` rows; `u32::MAX`
    /// where `n` is zero.
    pub open spec fn min_cell(self, item: Seq<u8>, n: nat) -> u32
        decreases n,
    {
        if n == 0 {
            u32::MAX
        } else {
            min_u32(self.min_cell(item, (n - 1) as nat), self.cell(item, (n - 1) as nat))
        }
    }

    /// The estimate for `item`: the least of its counters over all rows.
    pub open spec fn estimate(self, item: Seq<u8>) -> u32 {
        self.min_cell(item, self.depth)
    }

    /// Whether the two sketches have the same width and depth.
    pub open spec fn mergeable(self, other: SketchModel) -> bool {
        self.width == other.width && self.depth == other.depth
    }

    /// The sketch whose counters are the sums of the counters of the two.
    pub open spec fn sum(self, other: SketchModel) -> SketchModel {
        SketchModel {
            table: Seq::new(
                self.depth,
                |i: int|
                    Seq::new(self.width, |j: int| sat_add(self.table[i][j], other.table[i][j])),
            ),
            ..self
        }
    }

    /// Whether the width is even.
    pub open spec fn compressible(self) -> bool {
        self.width % 2 == 0
    }

    /// The sketch of half the width in which each counter is the sum of the
    /// two counters that lay half the old width apart.
    pub open spec fn fold(self) -> SketchModel {
        let half = self.width / 2;
        SketchModel {
            width: half,
            depth: self.depth,
            table: Seq::new(
                self.depth,
                |i: int|
                    Seq::new(half, |j: int| sat_add(self.table[i][j], self.table[i][j + half])),
            ),
        }
    }
}

/// The reason a merge is refused.
#[derive(Debug, Clone, Copy, PartialEq, Eq, Structural)]
pub enum MergeError {
    /// The two sketches differ in width or in depth.
    DimensionMismatch,
}

/// A Count-Min sketch over byte strings.
pub struct Sketch {
    width: u32,
    depth: u32,
    sk: Vec<Vec<u32>>,
}

impl View for Sketch {
    type V = SketchModel;

    closed spec fn view(&self) -> SketchModel {
        SketchModel {
            width: self.width as nat,
            depth: self.depth as nat,
            table: Seq::new(self.sk@.len(), |i: int| self.sk@[i]@),
        }
    }
}

impl Sketch {
    /// A sketch of `depth` rows of `width` counters, all zero.
    pub fn new(width: u32, depth: u32) -> (r: Sketch)
        requires
            width >= 1,
        ensures
            r@ == SketchModel::empty(width as nat, depth as nat),
            r@.wf(),
    {
        let mut sk: Vec<Vec<u32>> = Vec::new();
        let mut i: u32 = 0;
        while i < depth
            invariant
                i <= depth,
                sk@.len() == i,
                forall|r: int|
                    0 <= r < i ==> (#[trigger] sk@[r])@ =~= Seq::new(width as nat, |j: int| 0u32),
            decreases depth - i,
        {
            let mut row: Vec<u32> = Vec::with_capacity(width as usize);
            row.resize(width as usize, 0);
            proof {
                assert(row@ =~= Seq::new(width as nat, |j: int| 0u32));
            }
            sk.push(row);
            i += 1;
        }
        let r = Sketch { width, depth, sk };
        proof {
            assert(r@.table =~= SketchModel::empty(width as nat, depth as nat).table);
        }
        r
    }

    /// The number of counters in a row.
    pub fn width(&self) -> (w: u32)
        ensures
            w == self@.width,
    {
        self.width
    }

    /// The number of rows.
    pub fn depth(&self) -> (d: u32)
        ensures
            d == self@.depth,
    {
        self.depth
    }

    /// Whether the width is even, as `compress` asks.
    pub fn can_compress(&self) -> (ok: bool)
        ensures
            ok == self@.compressible(),
    {
        self.width % 2 == 0
    }

    /// Adds `count` to the counter of `b` in every row, saturating. The
    /// estimate for `b` rises by `count`, and no estimate falls.
    pub fn add(&mut self, b: &[u8], count: u32)
        requires
            old(self)@.wf(),
        ensures
            final(self)@ == old(self)@.insert(b@, count),
            final(self)@.wf(),
            final(self)@.estimate(b@) == sat_add(old(self)@.estimate(b@), count),
            forall|x: Seq<u8>| #[trigger] final(self)@.estimate(x) >= old(self)@.estimate(x),
    {
        let h1: u32 = leveldb_bloom_hash(b);
        let h2: u32 = jenkins_hash(b);
        let ghost before = self@;
        let mut i: u32 = 0;
        while i < self.depth
            invariant
                before.wf(),
                i <= self.depth,
                self.width == before.width,
                self.depth == before.depth,
                h1 == crate::hash::leveldb_bloom_hash_spec(b@),
                h2 == crate::hash::jenkins_hash_spec(b@),
                self.sk@.len() == before.depth,
                forall|r: int|
                    0 <= r < i ==> (#[trigger] self.sk@[r])@ == before.insert(b@, count).table[r],
                forall|r: int| i <= r < before.depth ==> (#[trigger] self.sk@[r])@ == before.table[r],
            decreases self.depth - i,
        {
            let pos: usize = probe(h1, h2, i, self.width) as usize;
            let row: usize = i as usize;
            let sum: u32 = self.sk[row][pos].saturating_add(count);
            self.sk[row][pos] = sum;
            i += 1;
        }
        proof {
            assert(self@.table =~= before.insert(b@, count).table);
            lemma_insert_wf(before, b@, count);
            lemma_insert_raises_estimate(before, b@, count);
            assert forall|x: Seq<u8>| #[trigger] self@.estimate(x) >= before.estimate(x) by {
                lemma_insert_never_lowers(before, x, b@, count);
            }
        }
    }

    /// The estimate for `b`: the least of its counters over all rows, and
    /// `u32::MAX` for a sketch without rows.
    pub fn count(&self, b: &[u8]) -> (val: u32)
        requires
            self@.wf(),
        ensures
            val == self@.estimate(b@),
            forall|i: nat| i < self@.depth ==> val <= #[trigger] self@.cell(b@, i),
            self@.depth > 0 ==> exists|i: nat|
                i < self@.depth && val == #[trigger] self@.cell(b@, i),
            self@.depth == 0 ==> val == u32::MAX,
    {
        let h1: u32 = leveldb_bloom_hash(b);
        let h2: u32 = jenkins_hash(b);
        let mut val: u32 = u32::MAX;
        let mut i: u32 = 0;
        while i < self.depth
            invariant
                self@.wf(),
                i <= self.depth,
                h1 == crate::hash::leveldb_bloom_hash_spec(b@),
                h2 == crate::hash::jenkins_hash_spec(b@),
                val == self@.min_cell(b@, i as nat),
            decreases self.depth - i,
        {
            let pos: usize = probe(h1, h2, i, self.width) as usize;
            proof {
                assert(self@.table[i as int] == self.sk@[i as int]@);
            }
            let seen: u32 = self.sk[i as usize][pos];
            if seen < val {
                val = seen;
            }
            i += 1;
        }
        proof {
            lemma_min_cell_is_minimum(self@, b@, self@.depth);
        }
        val
    }

    /// Adds every counter of `other` to the counter in the same place,
    /// saturating, if the two sketches have the same width and depth;
    /// otherwise leaves the sketch as it is. After a merge every estimate is
    /// at least the sum of the two estimates.
    pub fn merge(&mut self, other: &Sketch) -> (r: Result<(), MergeError>)
        requires
            old(self)@.wf(),
            other@.wf(),
        ensures
            r is Ok <==> old(self)@.mergeable(other@),
            r is Ok ==> final(self)@ == old(self)@.sum(other@),
            r is Err ==> r == Err::<(), MergeError>(MergeError::DimensionMismatch) && *final(self)
                == *old(self),
            final(self)@.wf(),
            r is Ok ==> forall|x: Seq<u8>| #[trigger]
                final(self)@.estimate(x) >= sat_add(old(self)@.estimate(x), other@.estimate(x)),
    {
        if self.width != other.width || self.depth != other.depth {
            return Err(MergeError::DimensionMismatch);
        }
        let ghost before = self@;
        let ghost merged = before.sum(other@).table;
        let rows: usize = self.depth as usize;
        let cols: usize = self.width as usize;
        let mut i: usize = 0;
        while i < rows
            invariant
                before.wf(),
                other@.wf(),
                before.mergeable(other@),
                merged == before.sum(other@).table,
                i <= rows,
                rows == before.depth,
                cols == before.width,
                self.width == before.width,
                self.depth == before.depth,
                self.sk@.len() == rows,
                forall|r: int| 0 <= r < i ==> (#[trigger] self.sk@[r])@ == merged[r],
                forall|r: int| i <= r < rows ==> (#[trigger] self.sk@[r])@ == before.table[r],
            decreases rows - i,
        {
            let mut j: usize = 0;
            while j < cols
                invariant
                    before.wf(),
                    other@.wf(),
                    before.mergeable(other@),
                    merged == before.sum(other@).table,
                    i < rows,
                    j <= cols,
                    rows == before.depth,
                    cols == before.width,
                    self.width == before.width,
                    self.depth == before.depth,
                    self.sk@.len() == rows,
                    forall|r: int| 0 <= r < i ==> (#[trigger] self.sk@[r])@ == merged[r],
                    forall|r: int| i < r < rows ==> (#[trigger] self.sk@[r])@ == before.table[r],
                    self.sk@[i as int]@.len() == cols,
                    forall|c: int| 0 <= c < j ==> self.sk@[i as int]@[c] == merged[i as int][c],
                    forall|c: int|
                        j <= c < cols ==> self.sk@[i as int]@[c] == before.table[i as int][c],
                decreases cols - j,
            {
                proof {
                    assert(other@.table[i as int] == other.sk@[i as int]@);
                }
                let sum: u32 = self.sk[i][j].saturating_add(other.sk[i][j]);
                self.sk[i][j] = sum;
                j += 1;
            }
            proof {
                assert(self.sk@[i as int]@ =~= merged[i as int]);
            }
            i += 1;
        }
        proof {
            assert(self@.table =~= merged);
            assert forall|x: Seq<u8>| #[trigger]
                self@.estimate(x) >= sat_add(before.estimate(x), other@.estimate(x)) by {
                lemma_sum_estimate(before, other@, x);
            }
        }
        Ok(())
    }

    /// Halves the width: each counter becomes the saturating sum of the two
    /// counters that lay half the old width apart. The width must be even.
    /// No estimate falls.
    pub fn compress(&mut self)
        requires
            old(self)@.wf(),
            old(self)@.compressible(),
        ensures
            final(self)@ == old(self)@.fold(),
            final(self)@.wf(),
            forall|x: Seq<u8>| #[trigger] final(self)@.estimate(x) >= old(self)@.estimate(x),
    {
        let ghost before = self@;
        let ghost folded = before.fold().table;
        let half: usize = (self.width / 2) as usize;
        let rows: usize = self.depth as usize;
        let mut d: usize = 0;
        while d < rows
            invariant
                before.wf(),
                before.compressible(),
                folded == before.fold().table,
                d <= rows,
                rows == before.depth,
                2 * half == before.width,
                self.width == before.width,
                self.depth == before.depth,
                self.sk@.len() == rows,
                forall|r: int| 0 <= r < d ==> (#[trigger] self.sk@[r])@ == folded[r],
                forall|r: int| d <= r < rows ==> (#[trigger] self.sk@[r])@ == before.table[r],
            decreases rows - d,
        {
            let mut row: Vec<u32> = Vec::with_capacity(half);
            row.resize(half, 0);
            let mut w: usize = 0;
            while w < half
                invariant
                    before.wf(),
                    d < rows,
                    w <= half,
                    rows == before.depth,
                    2 * half == before.width,
                    folded == before.fold().table,
                    self.sk@.len() == rows,
                    self.sk@[d as int]@ == before.table[d as int],
                    row@.len() == half,
                    forall|c: int| 0 <= c < w ==> row@[c] == folded[d as int][c],
                decreases half - w,
            {
                let sum: u32 = self.sk[d][w].saturating_add(self.sk[d][half + w]);
                row[w] = sum;
                w += 1;
            }
            proof {
                assert(row@ =~= folded[d as int]);
            }
            self.sk[d] = row;
            d += 1;
        }
        self.width = self.width / 2;
        proof {
            assert(self@.table =~= folded);
            assert forall|x: Seq<u8>| #[trigger] self@.estimate(x) >= before.estimate(x) by {
                lemma_fold_never_lowers(before, x);
            }
        }
    }
}

} // verus!
