//! What holds of every Count-Min sketch, stated over its model.

use crate::cms::{sat_add, SketchModel};
use crate::hash::{
    item_probe, jenkins_hash_spec, lemma_probe_halved, lemma_probe_in_range,
    leveldb_bloom_hash_spec,
};
use vstd::prelude::*;

verus! {

/// Every probe of a well-formed sketch lands inside its row.
pub proof fn lemma_probe_in_row(m: SketchModel, item: Seq<u8>, i: nat)
    requires
        m.wf(),
        i < m.depth,
    ensures
        item_probe(item, i, m.width) < m.table[i as int].len(),
{
    lemma_probe_in_range(leveldb_bloom_hash_spec(item), jenkins_hash_spec(item), i, m.width);
}

/// Adding to an item keeps a sketch well formed.
pub proof fn lemma_insert_wf(m: SketchModel, item: Seq<u8>, count: u32)
    requires
        m.wf(),
    ensures
        m.insert(item, count).wf(),
{
    let after = m.insert(item, count);
    assert forall|i: int| 0 <= i < after.depth implies (#[trigger] after.table[i]).len()
        == after.width by {
        lemma_probe_in_row(m, item, i as nat);
    }
}

/// Merging keeps the receiver well formed.
pub proof fn lemma_sum_wf(m: SketchModel, other: SketchModel)
    requires
        m.wf(),
    ensures
        m.sum(other).wf(),
{
}

/// Compressing a sketch of even width keeps it well formed.
pub proof fn lemma_fold_wf(m: SketchModel)
    requires
        m.wf(),
        m.compressible(),
    ensures
        m.fold().wf(),
{
}

/// The estimate is a minimum: no counter of the item lies below it, and in a
/// sketch with rows it is one of them.
pub proof fn lemma_min_cell_is_minimum(m: SketchModel, item: Seq<u8>, n: nat)
    ensures
        forall|i: nat| i < n ==> m.min_cell(item, n) <= #[trigger] m.cell(item, i),
        n > 0 ==> exists|i: nat| i < n && m.min_cell(item, n) == #[trigger] m.cell(item, i),
    decreases n,
{
    if n > 0 {
        let last = (n - 1) as nat;
        lemma_min_cell_is_minimum(m, item, last);
        if m.min_cell(item, n) == m.cell(item, last) {
            assert(last < n && m.min_cell(item, n) == m.cell(item, last));
        } else {
            let i = choose|i: nat| i < last && m.min_cell(item, last) == #[trigger] m.cell(item, i);
            assert(i < n && m.min_cell(item, n) == m.cell(item, i));
        }
    }
}

/// Raising counters never lowers the least of them.
pub proof fn lemma_min_cell_monotone(a: SketchModel, b: SketchModel, item: Seq<u8>, n: nat)
    requires
        forall|i: nat| i < n ==> a.cell(item, i) <= #[trigger] b.cell(item, i),
    ensures
        a.min_cell(item, n) <= b.min_cell(item, n),
    decreases n,
{
    if n > 0 {
        lemma_min_cell_monotone(a, b, item, (n - 1) as nat);
        assert(a.cell(item, (n - 1) as nat) <= b.cell(item, (n - 1) as nat));
    }
}

/// Over any number of rows, adding `count` to an item raises the least of
/// its counters by `count`, saturating.
proof fn lemma_insert_same_rows(m: SketchModel, item: Seq<u8>, count: u32, n: nat)
    requires
        m.wf(),
        n <= m.depth,
    ensures
        m.insert(item, count).min_cell(item, n) == sat_add(m.min_cell(item, n), count),
    decreases n,
{
    if n > 0 {
        let last = (n - 1) as nat;
        lemma_insert_same_rows(m, item, count, last);
        lemma_probe_in_row(m, item, last);
        assert(m.insert(item, count).cell(item, last) == sat_add(m.cell(item, last), count));
    }
}

/// Adding `count` to an item raises its estimate by exactly `count`, up to
/// the point where the counters saturate.
pub proof fn lemma_insert_raises_estimate(m: SketchModel, item: Seq<u8>, count: u32)
    requires
        m.wf(),
    ensures
        m.insert(item, count).estimate(item) == sat_add(m.estimate(item), count),
{
    lemma_insert_same_rows(m, item, count, m.depth);
}

/// Adding to one item never lowers the estimate of another.
pub proof fn lemma_insert_never_lowers(
    m: SketchModel,
    item: Seq<u8>,
    added: Seq<u8>,
    count: u32,
)
    requires
        m.wf(),
    ensures
        m.insert(added, count).estimate(item) >= m.estimate(item),
{
    let after = m.insert(added, count);
    assert forall|i: nat| i < m.depth implies m.cell(item, i) <= #[trigger] after.cell(
        item,
        i,
    ) by {
        lemma_probe_in_row(m, item, i);
        lemma_probe_in_row(m, added, i);
    }
    lemma_min_cell_monotone(m, after, item, m.depth);
}

/// The sketch after a sequence of additions, first to last. Each entry is an
/// item and the count added to it.
pub open spec fn replay(m: SketchModel, adds: Seq<(Seq<u8>, u32)>) -> SketchModel
    decreases adds.len(),
{
    if adds.len() == 0 {
        m
    } else {
        replay(m, adds.drop_last()).insert(adds.last().0, adds.last().1)
    }
}

/// The true frequency of `item` in a sequence of additions: the sum of the
/// counts added to it.
pub open spec fn total(adds: Seq<(Seq<u8>, u32)>, item: Seq<u8>) -> nat
    decreases adds.len(),
{
    if adds.len() == 0 {
        0
    } else {
        let rest = total(adds.drop_last(), item);
        if adds.last().0 == item {
            rest + adds.last().1 as nat
        } else {
            rest
        }
    }
}

/// The value a counter holds for a true sum of `n`.
pub open spec fn capped(n: nat) -> u32 {
    if n > u32::MAX {
        u32::MAX
    } else {
        n as u32
    }
}

/// Any sequence of additions keeps a sketch well formed.
pub proof fn lemma_replay_wf(m: SketchModel, adds: Seq<(Seq<u8>, u32)>)
    requires
        m.wf(),
    ensures
        replay(m, adds).wf(),
        replay(m, adds).width == m.width,
        replay(m, adds).depth == m.depth,
    decreases adds.len(),
{
    if adds.len() > 0 {
        lemma_replay_wf(m, adds.drop_last());
        lemma_insert_wf(replay(m, adds.drop_last()), adds.last().0, adds.last().1);
    }
}

/// After any sequence of additions to a sketch, the estimate for an item is
/// at least what it was plus all that was added to that item since; where
/// that sum does not fit in 32 bits, the estimate is `u32::MAX`.
pub proof fn lemma_estimate_covers_additions(
    m: SketchModel,
    adds: Seq<(Seq<u8>, u32)>,
    item: Seq<u8>,
)
    requires
        m.wf(),
    ensures
        replay(m, adds).estimate(item) >= capped(m.estimate(item) as nat + total(adds, item)),
    decreases adds.len(),
{
    if adds.len() > 0 {
        let before = replay(m, adds.drop_last());
        lemma_replay_wf(m, adds.drop_last());
        lemma_estimate_covers_additions(m, adds.drop_last(), item);
        if adds.last().0 == item {
            lemma_insert_raises_estimate(before, item, adds.last().1);
        } else {
            lemma_insert_never_lowers(before, item, adds.last().0, adds.last().1);
        }
    }
}

/// Never underestimate: a sketch that started empty and saw any sequence of
/// additions estimates every item at no less than the sum of the counts added
/// to it, as long as that sum fits in 32 bits; beyond, the estimate stays at
/// `u32::MAX`.
pub proof fn lemma_never_underestimates(
    width: nat,
    depth: nat,
    adds: Seq<(Seq<u8>, u32)>,
    item: Seq<u8>,
)
    requires
        1 <= width <= u32::MAX,
        depth <= u32::MAX,
    ensures
        total(adds, item) <= u32::MAX ==> replay(SketchModel::empty(width, depth), adds).estimate(
            item,
        ) >= total(adds, item),
        total(adds, item) > u32::MAX ==> replay(SketchModel::empty(width, depth), adds).estimate(
            item,
        ) == u32::MAX,
{
    lemma_estimate_covers_additions(SketchModel::empty(width, depth), adds, item);
}

/// Merging adds the same counters whichever of the two sketches receives the
/// other.
pub proof fn lemma_sum_commutes(a: SketchModel, b: SketchModel)
    requires
        a.mergeable(b),
    ensures
        a.sum(b) == b.sum(a),
{
    assert(a.sum(b).table =~~= b.sum(a).table);
}

/// Merging three sketches gives the same counters however the merges are
/// grouped.
pub proof fn lemma_sum_associates(a: SketchModel, b: SketchModel, c: SketchModel)
    requires
        a.mergeable(b),
        b.mergeable(c),
    ensures
        a.sum(b).sum(c) == a.sum(b.sum(c)),
{
    assert(a.sum(b).sum(c).table =~~= a.sum(b.sum(c)).table);
}

/// Merging an empty sketch in changes nothing.
pub proof fn lemma_sum_empty(m: SketchModel)
    requires
        m.wf(),
    ensures
        m.sum(SketchModel::empty(m.width, m.depth)) == m,
{
    let merged = m.sum(SketchModel::empty(m.width, m.depth));
    assert forall|i: int| 0 <= i < m.depth implies merged.table[i] =~= m.table[i] by {
        assert(m.table[i].len() == m.width);
    }
    assert(merged.table =~= m.table);
}

/// Merging and adding commute: to add to the sketch that is merged in is to
/// add to the merged sketch.
pub proof fn lemma_sum_insert(a: SketchModel, b: SketchModel, item: Seq<u8>, count: u32)
    requires
        a.wf(),
        b.wf(),
        a.mergeable(b),
    ensures
        a.sum(b.insert(item, count)) == a.sum(b).insert(item, count),
{
    let left = a.sum(b.insert(item, count));
    let right = a.sum(b).insert(item, count);
    assert forall|i: int| 0 <= i < a.depth implies left.table[i] =~= right.table[i] by {
        lemma_probe_in_row(b, item, i as nat);
        assert(a.table[i].len() == a.width);
    }
    assert(left.table =~= right.table);
}

/// Merging a replayed sketch in is replaying onto the merged sketch.
pub proof fn lemma_sum_replay(a: SketchModel, b: SketchModel, adds: Seq<(Seq<u8>, u32)>)
    requires
        a.wf(),
        b.wf(),
        a.mergeable(b),
    ensures
        a.sum(replay(b, adds)) == replay(a.sum(b), adds),
    decreases adds.len(),
{
    if adds.len() > 0 {
        lemma_sum_replay(a, b, adds.drop_last());
        lemma_replay_wf(b, adds.drop_last());
        lemma_sum_insert(a, replay(b, adds.drop_last()), adds.last().0, adds.last().1);
    }
}

/// Replaying two sequences one after the other is replaying their
/// concatenation.
pub proof fn lemma_replay_concat(
    m: SketchModel,
    first: Seq<(Seq<u8>, u32)>,
    second: Seq<(Seq<u8>, u32)>,
)
    ensures
        replay(replay(m, first), second) == replay(m, first + second),
    decreases second.len(),
{
    if second.len() == 0 {
        assert(first + second =~= first);
    } else {
        lemma_replay_concat(m, first, second.drop_last());
        assert((first + second).drop_last() =~= first + second.drop_last());
        assert((first + second).last() == second.last());
    }
}

/// Merge is exact sum: merging the sketches of two streams gives, counter by
/// counter, the sketch of the two streams one after the other.
pub proof fn lemma_merge_is_concatenation(
    width: nat,
    depth: nat,
    first: Seq<(Seq<u8>, u32)>,
    second: Seq<(Seq<u8>, u32)>,
)
    requires
        1 <= width <= u32::MAX,
        depth <= u32::MAX,
    ensures
        replay(SketchModel::empty(width, depth), first).mergeable(
            replay(SketchModel::empty(width, depth), second),
        ),
        replay(SketchModel::empty(width, depth), first).sum(
            replay(SketchModel::empty(width, depth), second),
        ) == replay(SketchModel::empty(width, depth), first + second),
{
    let e = SketchModel::empty(width, depth);
    let a = replay(e, first);
    lemma_replay_wf(e, first);
    lemma_replay_wf(e, second);
    lemma_sum_replay(a, e, second);
    lemma_sum_empty(a);
    lemma_replay_concat(e, first, second);
}

/// After a merge the estimate for an item is at least the sum of the two
/// estimates, up to the point where the counters saturate.
pub proof fn lemma_sum_estimate(a: SketchModel, b: SketchModel, item: Seq<u8>)
    requires
        a.wf(),
        b.wf(),
        a.mergeable(b),
    ensures
        a.sum(b).estimate(item) >= sat_add(a.estimate(item), b.estimate(item)),
{
    lemma_sum_rows(a, b, item, a.depth);
}

/// Over any number of rows, the least counter of the merged sketch is at
/// least the saturating sum of the two least counters.
proof fn lemma_sum_rows(a: SketchModel, b: SketchModel, item: Seq<u8>, n: nat)
    requires
        a.wf(),
        b.wf(),
        a.mergeable(b),
        n <= a.depth,
    ensures
        a.sum(b).min_cell(item, n) >= sat_add(a.min_cell(item, n), b.min_cell(item, n)),
    decreases n,
{
    if n > 0 {
        let last = (n - 1) as nat;
        lemma_sum_rows(a, b, item, last);
        lemma_probe_in_row(a, item, last);
        assert(a.sum(b).cell(item, last) == sat_add(a.cell(item, last), b.cell(item, last)));
    }
}

/// Compressing a sketch of even width never lowers an estimate.
pub proof fn lemma_fold_never_lowers(m: SketchModel, item: Seq<u8>)
    requires
        m.wf(),
        m.compressible(),
    ensures
        m.fold().estimate(item) >= m.estimate(item),
{
    let after = m.fold();
    let half = m.width / 2;
    assert forall|i: nat| i < m.depth implies m.cell(item, i) <= #[trigger] after.cell(
        item,
        i,
    ) by {
        let p = item_probe(item, i, m.width);
        let q = item_probe(item, i, after.width);
        lemma_probe_in_row(m, item, i);
        lemma_probe_halved(leveldb_bloom_hash_spec(item), jenkins_hash_spec(item), i, m.width);
        assert(p == q || p == q + half) by (nonlinear_arith)
            requires
                0 < half,
                p < 2 * half,
                q == p % half,
        ;
    }
    lemma_min_cell_monotone(m, after, item, m.depth);
}

} // verus!
