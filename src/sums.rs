use vstd::prelude::*;

use crate::orders::TradeOrder;

verus! {

/// Sum of the remaining quantities of the orders of a level.
pub open spec fn level_volume(s: Seq<TradeOrder>) -> int
    decreases s.len(),
{
    if s.len() == 0 {
        0
    } else {
        level_volume(s.drop_last()) + s.last().remaining_qty.val()
    }
}

/// Sum of `f` over the levels of a price map.
pub open spec fn map_sum(m: Map<i128, Seq<TradeOrder>>, f: spec_fn(Seq<TradeOrder>) -> int) -> int
    decreases m.dom().len(),
    when m.dom().finite()
    via map_sum_decreases
{
    if exists|k: i128| m.dom().contains(k) {
        let k = choose|k: i128| m.dom().contains(k);
        f(m[k]) + map_sum(m.remove(k), f)
    } else {
        0
    }
}

#[via_fn]
proof fn map_sum_decreases(m: Map<i128, Seq<TradeOrder>>, f: spec_fn(Seq<TradeOrder>) -> int) {
    if exists|k: i128| m.dom().contains(k) {
        let k = choose|k: i128| m.dom().contains(k);
        assert(m.remove(k).dom() =~= m.dom().remove(k));
    }
}

/// The size of a level, as a term of a sum.
pub open spec fn len_term() -> spec_fn(Seq<TradeOrder>) -> int {
    |s: Seq<TradeOrder>| s.len() as int
}

/// The volume of a level, as a term of a sum.
pub open spec fn volume_term() -> spec_fn(Seq<TradeOrder>) -> int {
    |s: Seq<TradeOrder>| level_volume(s)
}

/// Number of orders resting in a price map.
pub open spec fn order_count(m: Map<i128, Seq<TradeOrder>>) -> int {
    map_sum(m, len_term())
}

/// Remaining quantity resting in a price map.
pub open spec fn volume(m: Map<i128, Seq<TradeOrder>>) -> int {
    map_sum(m, volume_term())
}

pub proof fn lemma_map_sum_remove(
    m: Map<i128, Seq<TradeOrder>>,
    f: spec_fn(Seq<TradeOrder>) -> int,
    k: i128,
)
    requires
        m.dom().finite(),
        m.contains_key(k),
    ensures
        map_sum(m, f) == f(m[k]) + map_sum(m.remove(k), f),
    decreases m.dom().len(),
{
    assert(m.dom().contains(k));
    let j = choose|j: i128| m.dom().contains(j);
    if j != k {
        assert(m.remove(j).dom() =~= m.dom().remove(j));
        assert(m.remove(k).dom() =~= m.dom().remove(k));
        assert(m.remove(j).contains_key(k));
        lemma_map_sum_remove(m.remove(j), f, k);
        assert(m.remove(k).contains_key(j));
        lemma_map_sum_remove(m.remove(k), f, j);
        assert(m.remove(j).remove(k) =~= m.remove(k).remove(j));
        assert(m.remove(j)[k] == m[k]);
        assert(m.remove(k)[j] == m[j]);
    }
}

/// Setting a level changes a sum by the difference of `f` on the two levels.
pub proof fn lemma_map_sum_insert(
    m: Map<i128, Seq<TradeOrder>>,
    f: spec_fn(Seq<TradeOrder>) -> int,
    k: i128,
    v: Seq<TradeOrder>,
)
    requires
        m.dom().finite(),
    ensures
        map_sum(m.insert(k, v), f) == f(v) + map_sum(m, f) - (if m.contains_key(k) {
            f(m[k])
        } else {
            0
        }),
{
    let n = m.insert(k, v);
    lemma_map_sum_remove(n, f, k);
    if m.contains_key(k) {
        lemma_map_sum_remove(m, f, k);
        assert(n.remove(k) =~= m.remove(k));
    } else {
        assert(n.remove(k) =~= m);
    }
}

pub proof fn lemma_map_sum_nonneg(m: Map<i128, Seq<TradeOrder>>, f: spec_fn(Seq<TradeOrder>) -> int)
    requires
        m.dom().finite(),
        forall|k: i128| #[trigger] m.contains_key(k) ==> f(m[k]) >= 0,
    ensures
        map_sum(m, f) >= 0,
    decreases m.dom().len(),
{
    if exists|k: i128| m.dom().contains(k) {
        let k = choose|k: i128| m.dom().contains(k);
        assert(m.remove(k).dom() =~= m.dom().remove(k));
        lemma_map_sum_nonneg(m.remove(k), f);
    }
}

/// Each term of a sum of non-negative terms is at most the sum.
pub proof fn lemma_map_sum_term(m: Map<i128, Seq<TradeOrder>>, f: spec_fn(Seq<TradeOrder>) -> int, k: i128)
    requires
        m.dom().finite(),
        m.contains_key(k),
        forall|j: i128| #[trigger] m.contains_key(j) ==> f(m[j]) >= 0,
    ensures
        f(m[k]) <= map_sum(m, f),
{
    lemma_map_sum_remove(m, f, k);
    lemma_map_sum_nonneg(m.remove(k), f);
}

/// Sum of `f` over the levels at the prices of `ks`, in that order.
pub open spec fn keys_sum(m: Map<i128, Seq<TradeOrder>>, f: spec_fn(Seq<TradeOrder>) -> int, ks: Seq<i128>) -> int
    decreases ks.len(),
{
    if ks.len() == 0 {
        0
    } else {
        keys_sum(m, f, ks.drop_last()) + f(m[ks.last()])
    }
}

/// Summing over an enumeration of some of the prices is summing over the map
/// restricted to them.
pub proof fn lemma_keys_sum(m: Map<i128, Seq<TradeOrder>>, f: spec_fn(Seq<TradeOrder>) -> int, ks: Seq<i128>)
    requires
        m.dom().finite(),
        ks.no_duplicates(),
        forall|i: int| 0 <= i < ks.len() ==> m.contains_key(#[trigger] ks[i]),
    ensures
        m.restrict(ks.to_set()).dom().finite(),
        keys_sum(m, f, ks) == map_sum(m.restrict(ks.to_set()), f),
    decreases ks.len(),
{
    vstd::set_lib::lemma_set_subset_finite(m.dom(), m.restrict(ks.to_set()).dom());
    if ks.len() == 0 {
        assert(m.restrict(ks.to_set()) =~= Map::empty());
    } else {
        let pre = ks.drop_last();
        let k = ks.last();
        assert(pre.no_duplicates());
        lemma_keys_sum(m, f, pre);
        pre.unique_seq_to_set();
        ks.unique_seq_to_set();
        let r = m.restrict(pre.to_set());
        assert(!pre.to_set().contains(k)) by {
            if pre.to_set().contains(k) {
                let i = choose|i: int| 0 <= i < pre.len() && pre[i] == k;
                assert(ks[i] == ks[ks.len() - 1]);
            }
        }
        assert(m.restrict(ks.to_set()) =~= r.insert(k, m[k])) by {
            assert forall|x: i128| ks.to_set().contains(x) <==> pre.to_set().contains(x) || x == k by {
                if ks.to_set().contains(x) {
                    let i = choose|i: int| 0 <= i < ks.len() && ks[i] == x;
                    if i < ks.len() - 1 {
                        assert(pre[i] == x);
                    }
                }
                if pre.to_set().contains(x) {
                    let i = choose|i: int| 0 <= i < pre.len() && pre[i] == x;
                    assert(ks[i] == x);
                }
                if x == k {
                    assert(ks[ks.len() - 1] == x);
                }
            }
        }
        lemma_map_sum_insert(r, f, k, m[k]);
    }
}

pub proof fn lemma_level_volume_push(s: Seq<TradeOrder>, o: TradeOrder)
    ensures
        level_volume(s.push(o)) == level_volume(s) + o.remaining_qty.val(),
{
    assert(s.push(o).drop_last() =~= s);
}

/// The volume of a level is that of its first order plus that of the rest.
pub proof fn lemma_level_volume_front(s: Seq<TradeOrder>)
    requires
        s.len() > 0,
    ensures
        level_volume(s) == s[0].remaining_qty.val() + level_volume(s.skip(1)),
    decreases s.len(),
{
    if s.len() > 1 {
        lemma_level_volume_front(s.drop_last());
        assert(s.drop_last().skip(1) =~= s.skip(1).drop_last());
    } else {
        assert(s.drop_last() =~= Seq::<TradeOrder>::empty());
        assert(s.skip(1) =~= Seq::<TradeOrder>::empty());
    }
}

pub proof fn lemma_level_volume_nonneg(s: Seq<TradeOrder>)
    requires
        forall|i: int| 0 <= i < s.len() ==> #[trigger] s[i].remaining_qty.val() >= 0,
    ensures
        level_volume(s) >= 0,
        forall|j: int| 0 <= j <= s.len() ==> #[trigger] level_volume(s.take(j)) <= level_volume(s),
    decreases s.len(),
{
    if s.len() > 0 {
        let d = s.drop_last();
        lemma_level_volume_nonneg(d);
        assert forall|j: int| 0 <= j <= s.len() implies #[trigger] level_volume(s.take(j)) <= level_volume(s) by {
            if j < s.len() {
                assert(s.take(j) =~= d.take(j));
            } else {
                assert(s.take(j) =~= s);
            }
        }
    }
}

} // verus!
