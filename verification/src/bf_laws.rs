//! What holds of every Bloom filter, stated over its model.

use crate::bf::{probed, words_for, FilterModel};
use crate::hash::{
    item_probe, jenkins_hash_spec, lemma_probe_halved, lemma_probe_in_range,
    leveldb_bloom_hash_spec,
};
use vstd::prelude::*;

verus! {

/// Adding an item keeps a filter well formed.
pub proof fn lemma_insert_wf(m: FilterModel, item: Seq<u8>)
    requires
        m.wf(),
    ensures
        m.insert(item).wf(),
{
}

/// Merging keeps the receiver well formed, whatever is merged into it.
pub proof fn lemma_union_wf(m: FilterModel, other: FilterModel)
    requires
        m.wf(),
    ensures
        m.union(other).wf(),
{
}

/// Half the bits of an even number of words fill half the words.
pub proof fn lemma_half_words(width: nat)
    requires
        width >= 1,
        words_for(width) % 2 == 0,
    ensures
        width / 2 >= 1,
        2 * words_for(width / 2) == words_for(width),
{
    let n = words_for(width);
    let m = n / 2;
    assert(64 * n <= width + 63 < 64 * n + 64);
    assert(n == 2 * m);
    assert(128 * m - 63 <= width <= 128 * m);
    assert(64 * m - 32 <= width / 2 <= 64 * m);
    assert(words_for(width / 2) == m);
}

/// Compressing a filter with an even number of words keeps it well formed.
pub proof fn lemma_fold_wf(m: FilterModel)
    requires
        m.wf(),
        m.compressible(),
    ensures
        m.fold().wf(),
{
    let n = words_for(m.width);
    assert(n % 2 == 0) by {
        assert((64 * n) % 128 == 0);
    }
    lemma_half_words(m.width);
    assert(m.fold().bits.len() == 32 * n);
}

/// Every probe of a well-formed filter lands inside its store.
pub proof fn lemma_probe_in_store(m: FilterModel, item: Seq<u8>, i: nat)
    requires
        m.wf(),
    ensures
        item_probe(item, i, m.width) < m.width,
        item_probe(item, i, m.width) < m.bits.len(),
{
    lemma_probe_in_range(leveldb_bloom_hash_spec(item), jenkins_hash_spec(item), i, m.width);
}

/// An empty filter contains nothing.
pub proof fn lemma_empty_contains_nothing(width: nat, hashes: nat, item: Seq<u8>)
    requires
        1 <= width <= u32::MAX,
        1 <= hashes <= u32::MAX,
    ensures
        !FilterModel::empty(width, hashes).contains(item),
{
    let m = FilterModel::empty(width, hashes);
    lemma_probe_in_store(m, item, 0);
    assert(!m.bits[item_probe(item, 0, m.width) as int]);
}

/// No false negatives: an item is contained as soon as it was added.
pub proof fn lemma_insert_contains(m: FilterModel, item: Seq<u8>)
    requires
        m.wf(),
    ensures
        m.insert(item).contains(item),
{
    let after = m.insert(item);
    assert forall|i: nat| i < after.hashes implies after.bits[#[trigger] item_probe(
        item,
        i,
        after.width,
    ) as int] by {
        lemma_probe_in_store(m, item, i);
        assert(probed(item, m.hashes, m.width, item_probe(item, i, m.width) as int));
    }
}

/// Adding an item removes none: what was contained stays contained.
pub proof fn lemma_insert_keeps(m: FilterModel, item: Seq<u8>, added: Seq<u8>)
    requires
        m.wf(),
        m.contains(item),
    ensures
        m.insert(added).contains(item),
{
    let after = m.insert(added);
    assert forall|i: nat| i < after.hashes implies after.bits[#[trigger] item_probe(
        item,
        i,
        after.width,
    ) as int] by {
        lemma_probe_in_store(m, item, i);
    }
}

/// Adding an item a second time changes nothing.
pub proof fn lemma_insert_idempotent(m: FilterModel, item: Seq<u8>)
    requires
        m.wf(),
    ensures
        m.insert(item).insert(item) == m.insert(item),
{
    assert(m.insert(item).insert(item).bits =~= m.insert(item).bits);
}

/// Merging removes nothing from the receiver.
pub proof fn lemma_union_keeps(m: FilterModel, other: FilterModel, item: Seq<u8>)
    requires
        m.wf(),
        m.contains(item),
    ensures
        m.union(other).contains(item),
{
    let after = m.union(other);
    assert forall|i: nat| i < after.hashes implies after.bits[#[trigger] item_probe(
        item,
        i,
        after.width,
    ) as int] by {
        lemma_probe_in_store(m, item, i);
    }
}

/// Merge is union: after merging two filters of the same width and number of
/// probes, the receiver contains whatever either of them contained.
pub proof fn lemma_union_contains_both(a: FilterModel, b: FilterModel, item: Seq<u8>)
    requires
        a.wf(),
        b.wf(),
        a.width == b.width,
        a.hashes == b.hashes,
        a.contains(item) || b.contains(item),
    ensures
        a.mergeable(b),
        a.union(b).contains(item),
{
    let after = a.union(b);
    assert forall|i: nat| i < after.hashes implies after.bits[#[trigger] item_probe(
        item,
        i,
        after.width,
    ) as int] by {
        lemma_probe_in_store(a, item, i);
    }
}

/// Merging sets the same bits whichever of the two stores receives the other.
pub proof fn lemma_union_commutes(a: FilterModel, b: FilterModel)
    requires
        a.mergeable(b),
    ensures
        a.union(b).bits == b.union(a).bits,
{
    assert(a.union(b).bits =~= b.union(a).bits);
}

/// Merging three stores sets the same bits however the merges are grouped.
pub proof fn lemma_union_associates(a: FilterModel, b: FilterModel, c: FilterModel)
    requires
        a.mergeable(b),
        b.mergeable(c),
    ensures
        a.union(b).union(c) == a.union(b.union(c)),
{
    assert(a.union(b).union(c).bits =~= a.union(b.union(c)).bits);
}

/// Compressing removes nothing from a filter whose width is a multiple of
/// 128, that is, whose two halves are made of whole words.
pub proof fn lemma_fold_keeps(m: FilterModel, item: Seq<u8>)
    requires
        m.wf(),
        m.width % 128 == 0,
        m.contains(item),
    ensures
        m.compressible(),
        m.fold().contains(item),
{
    let after = m.fold();
    let half = m.bits.len() / 2;
    assert(m.bits.len() == m.width && half == after.width) by {
        assert(words_for(m.width) * 64 == m.width);
    }
    assert forall|i: nat| i < after.hashes implies after.bits[#[trigger] item_probe(
        item,
        i,
        after.width,
    ) as int] by {
        let p = item_probe(item, i, m.width);
        let q = item_probe(item, i, after.width);
        lemma_probe_in_store(m, item, i);
        lemma_probe_halved(leveldb_bloom_hash_spec(item), jenkins_hash_spec(item), i, m.width);
        assert(q == p % half);
        assert(p == q || p == q + half) by (nonlinear_arith)
            requires
                0 < half,
                p < 2 * half,
                q == p % half,
        ;
        assert(m.bits[p as int]);
    }
}

/// One change to a filter: an item added, another filter merged in, or the
/// width halved.
pub enum FilterOp {
    Insert(Seq<u8>),
    Union(FilterModel),
    Fold,
}

/// The filter after one change. A merge with a store of another size leaves
/// the filter as it is.
pub open spec fn step(m: FilterModel, op: FilterOp) -> FilterModel {
    match op {
        FilterOp::Insert(item) => m.insert(item),
        FilterOp::Union(other) => if m.mergeable(other) {
            m.union(other)
        } else {
            m
        },
        FilterOp::Fold => m.fold(),
    }
}

/// The filter after a sequence of changes, first to last.
pub open spec fn run(m: FilterModel, ops: Seq<FilterOp>) -> FilterModel
    decreases ops.len(),
{
    if ops.len() == 0 {
        m
    } else {
        step(run(m, ops.drop_last()), ops.last())
    }
}

/// Whether every halving in `ops` meets a width that is a multiple of 128.
pub open spec fn halves_whole_words(m: FilterModel, ops: Seq<FilterOp>) -> bool
    decreases ops.len(),
{
    if ops.len() == 0 {
        true
    } else {
        &&& halves_whole_words(m, ops.drop_last())
        &&& ops.last() is Fold ==> run(m, ops.drop_last()).width % 128 == 0
    }
}

/// No false negatives, ever: an item that a filter contains is contained
/// after any sequence of additions, merges and halvings, as long as each
/// halving meets a width that is a multiple of 128.
pub proof fn lemma_presence_is_kept(m: FilterModel, ops: Seq<FilterOp>, item: Seq<u8>)
    requires
        m.wf(),
        m.contains(item),
        halves_whole_words(m, ops),
    ensures
        run(m, ops).wf(),
        run(m, ops).contains(item),
    decreases ops.len(),
{
    if ops.len() > 0 {
        let before = run(m, ops.drop_last());
        lemma_presence_is_kept(m, ops.drop_last(), item);
        match ops.last() {
            FilterOp::Insert(added) => {
                lemma_insert_keeps(before, item, added);
            },
            FilterOp::Union(other) => {
                lemma_union_keeps(before, other, item);
            },
            FilterOp::Fold => {
                lemma_fold_keeps(before, item);
                lemma_fold_wf(before);
            },
        }
    }
}

} // verus!
