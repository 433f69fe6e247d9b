//! The ranker: one total order over the catalog, computed once per session.
//!
//! With caching enabled the primary key is the stored frecency count,
//! descending; absent names count as zero; ties are broken by the name
//! order of [`crate::natural`] — the natural lexicographic order, with a
//! plain code-order fallback for the rare pair whose digit runs the
//! outside comparison cannot take.  With caching disabled the caller hands
//! an empty store, which leaves the name order alone.

use vstd::prelude::*;
use crate::item::{Item, ItemModel, name_of};
use crate::natural::{name_le, name_le_exec};
use crate::store::{FrecencyStore, StoreModel, count_or_zero};

verus! {

/// Whether `a` may stand at or before `b` in the ranked order: strictly
/// higher count first, equal counts in name order ([`name_le`]: the
/// natural lexicographic order, with the plain code order for the rare
/// pair the outside comparison may not be asked about).
pub open spec fn ranked_le(counts: StoreModel, a: ItemModel, b: ItemModel) -> bool {
    ||| count_or_zero(counts, name_of(a)) > count_or_zero(counts, name_of(b))
    ||| (count_or_zero(counts, name_of(a)) == count_or_zero(counts, name_of(b))
        && name_le(name_of(a), name_of(b)))
}

/// Where a later arrival lands in an already ranked sequence: after every
/// element that may stand before it, so equal keys keep their arrival
/// order.
pub open spec fn rank_insert(sorted: Seq<ItemModel>, x: ItemModel, counts: StoreModel) -> Seq<
    ItemModel,
>
    decreases sorted.len(),
{
    if sorted.len() == 0 {
        seq![x]
    } else if ranked_le(counts, sorted.last(), x) {
        sorted.push(x)
    } else {
        rank_insert(sorted.drop_last(), x, counts).push(sorted.last())
    }
}

/// The ranked order: the catalog items inserted one after another — a
/// stable insertion sort by count (descending) with natural name order as
/// the tie-break.  The order is a function of the catalog and the counts
/// alone, so ranking twice yields the same order.
pub open spec fn rank_spec(items: Seq<ItemModel>, counts: StoreModel) -> Seq<ItemModel>
    decreases items.len(),
{
    if items.len() == 0 {
        Seq::empty()
    } else {
        rank_insert(rank_spec(items.drop_last(), counts), items.last(), counts)
    }
}

/// Any two items are comparable: one of them may stand before the other.
pub open spec fn ranked_total(counts: StoreModel, a: ItemModel, b: ItemModel) -> bool {
    ranked_le(counts, a, b) || ranked_le(counts, b, a)
}

/// Each neighbouring pair of the sequence is in ranked order.
pub open spec fn ranked_adjacent(s: Seq<ItemModel>, counts: StoreModel) -> bool {
    forall|i: int| 0 <= i < s.len() - 1 ==> ranked_le(counts, #[trigger] s[i], s[i + 1])
}

fn ranked_le_exec(store: &FrecencyStore, a: &Item, b: &Item) -> (r: bool)
    ensures
        r == ranked_le(store@, a@, b@),
        ranked_total(store@, a@, b@),
{
    let ca = store.get_count(a.name());
    let cb = store.get_count(b.name());
    if ca > cb {
        true
    } else if ca == cb {
        name_le_exec(a.name(), b.name())
    } else {
        false
    }
}

proof fn lemma_rank_insert_at(sorted: Seq<ItemModel>, x: ItemModel, counts: StoreModel, j: int)
    requires
        0 <= j <= sorted.len(),
        forall|k: int| j <= k < sorted.len() ==> !ranked_le(counts, #[trigger] sorted[k], x),
        j == 0 || ranked_le(counts, sorted[j - 1], x),
    ensures
        rank_insert(sorted, x, counts) == sorted.subrange(0, j).push(x) + sorted.subrange(
            j,
            sorted.len() as int,
        ),
    decreases sorted.len(),
{
    if sorted.len() == 0 {
        assert(rank_insert(sorted, x, counts) =~= sorted.subrange(0, j).push(x) + sorted.subrange(
            j,
            sorted.len() as int,
        ));
    } else if j == sorted.len() {
        assert(rank_insert(sorted, x, counts) =~= sorted.subrange(0, j).push(x) + sorted.subrange(
            j,
            sorted.len() as int,
        ));
    } else {
        let d = sorted.drop_last();
        assert(forall|k: int| j <= k < d.len() ==> !ranked_le(counts, #[trigger] d[k], x));
        lemma_rank_insert_at(d, x, counts, j);
        assert(rank_insert(sorted, x, counts) =~= sorted.subrange(0, j).push(x) + sorted.subrange(
            j,
            sorted.len() as int,
        ));
    }
}

/// Law: the ranked order is a permutation of the catalog — every item
/// appears in it exactly as often as it appears in the catalog.
pub proof fn lemma_rank_permutation(items: Seq<ItemModel>, counts: StoreModel)
    ensures
        rank_spec(items, counts).to_multiset() == items.to_multiset(),
    decreases items.len(),
{
    broadcast use vstd::seq_lib::group_to_multiset_ensures;

    if items.len() > 0 {
        let d = items.drop_last();
        lemma_rank_permutation(d, counts);
        lemma_rank_insert_multiset(rank_spec(d, counts), items.last(), counts);
        assert(items =~= d.push(items.last()));
    }
}

proof fn lemma_rank_insert_multiset(sorted: Seq<ItemModel>, x: ItemModel, counts: StoreModel)
    ensures
        rank_insert(sorted, x, counts).to_multiset() == sorted.push(x).to_multiset(),
    decreases sorted.len(),
{
    broadcast use vstd::seq_lib::group_to_multiset_ensures;

    if sorted.len() == 0 {
        assert(rank_insert(sorted, x, counts) =~= sorted.push(x));
    } else if ranked_le(counts, sorted.last(), x) {
    } else {
        let d = sorted.drop_last();
        let l = sorted.last();
        lemma_rank_insert_multiset(d, x, counts);
        assert(sorted =~= d.push(l));
        assert(rank_insert(sorted, x, counts) == rank_insert(d, x, counts).push(l));
        assert(rank_insert(d, x, counts).push(l).to_multiset() == d.push(x).to_multiset().insert(
            l,
        ));
        assert(d.push(x).to_multiset() == d.to_multiset().insert(x));
        assert(sorted.push(x).to_multiset() == d.to_multiset().insert(l).insert(x));
        assert(d.to_multiset().insert(x).insert(l) =~= d.to_multiset().insert(l).insert(x));
    }
}

impl FrecencyStore {
    /// Rank the catalog against this store's counts: the returned order is
    /// exactly `rank_spec` of the catalog — so it is the same on every run —
    /// and it comes out sorted, each item in ranked order with its
    /// neighbour.
    pub fn rank(&self, items: &Vec<Item>) -> (r: Vec<Item>)
        ensures
            r.deep_view() == rank_spec(items.deep_view(), self@),
            ranked_adjacent(r.deep_view(), self@),
    {
        let n = items.len();
        let mut out: Vec<Item> = Vec::new();
        let mut i: usize = 0;
        proof {
            assert(items.deep_view().subrange(0, 0) =~= Seq::<ItemModel>::empty());
            assert(out.deep_view() =~= Seq::<ItemModel>::empty());
        }
        while i < n
            invariant
                i <= n,
                n == items@.len(),
                out.deep_view() == rank_spec(items.deep_view().subrange(0, i as int), self@),
                ranked_adjacent(out.deep_view(), self@),
                out@.len() <= i,
            decreases n - i,
        {
            let item = items[i].duplicate();
            let ghost sorted = out.deep_view();
            let mut j = out.len();
            while j > 0 && !ranked_le_exec(self, &out[j - 1], &item)
                invariant
                    j <= out@.len(),
                    out.deep_view() == sorted,
                    forall|k: int|
                        j <= k < sorted.len() ==> !ranked_le(self@, #[trigger] sorted[k], item@),
                    forall|k: int|
                        j <= k < sorted.len() ==> ranked_le(self@, item@, #[trigger] sorted[k]),
                decreases j,
            {
                j -= 1;
            }
            proof {
                lemma_rank_insert_at(sorted, item@, self@, j as int);
            }
            out.insert(j, item);
            proof {
                assert(out.deep_view() =~= sorted.subrange(0, j as int).push(item@)
                    + sorted.subrange(j as int, sorted.len() as int));
                let pre = items.deep_view().subrange(0, i as int);
                assert(items.deep_view().subrange(0, i + 1) =~= pre.push(items.deep_view()[i as int]));
                assert(items.deep_view().subrange(0, i + 1).drop_last() =~= pre);
                assert(out.deep_view() == rank_spec(items.deep_view().subrange(0, i + 1), self@));
                let nv = out.deep_view();
                let jj = j as int;
                assert forall|t: int| #![trigger nv[t]] 0 <= t < nv.len() - 1 implies ranked_le(
                    self@,
                    nv[t],
                    nv[t + 1],
                ) by {
                    if t < jj - 1 {
                        assert(nv[t] == sorted[t]);
                        assert(nv[t + 1] == sorted[t + 1]);
                    } else if t == jj - 1 {
                        assert(nv[t] == sorted[t]);
                        assert(nv[t + 1] == item@);
                    } else if t == jj {
                        assert(nv[t] == item@);
                        assert(nv[t + 1] == sorted[t]);
                    } else {
                        assert(nv[t] == sorted[t - 1]);
                        assert(nv[t + 1] == sorted[t]);
                    }
                }
            }
            i += 1;
        }
        proof {
            assert(items.deep_view().subrange(0, n as int) =~= items.deep_view());
        }
        out
    }
}

} // verus!
