use vstd::prelude::*;

use std::collections::HashMap;

use crate::book::{
    available, executed_qty, index_of, matched, lemma_executed_qty_append, level_at, level_has, level_ok, merged, order_rests, set_level, with_order,
    is_range, prices_best_first, reduced, within, without, HalfBook,
};
use crate::fixed::{Fixed, MAX_UNITS};
use crate::orders::{
    fills_qty, status_of, OrderRequest, OrderResult, OrderStatus, OrderType, TradeExecution, TradeOrder,
};
use crate::sums::{
    lemma_map_sum_insert, lemma_map_sum_nonneg, lemma_map_sum_remove, level_volume, order_count, volume, volume_term,
};
use crate::types::{OrderId, Price, Quantity, Side};

verus! {

broadcast use vstd::std_specs::hash::group_hash_axioms;

/// Where the order of each id rests: side and price.
pub type Locations = Map<OrderId, (Side, Price)>;

/// The levels of side `s`, given the asks `a` and the bids `b`.
pub open spec fn side_levels(a: Map<i128, Seq<TradeOrder>>, b: Map<i128, Seq<TradeOrder>>, s: Side) -> Map<i128, Seq<TradeOrder>> {
    match s {
        Side::Ask => a,
        Side::Bid => b,
    }
}

/// Every order resting in `m`, on side `s`, is recorded at its place.
pub open spec fn placed(m: Map<i128, Seq<TradeOrder>>, s: Side, loc: Locations) -> bool {
    forall|p: i128, i: int| #![trigger m[p][i]] m.contains_key(p) && 0 <= i < m[p].len() ==> {
        &&& loc.contains_key(m[p][i].id)
        &&& loc[m[p][i].id] == (s, Fixed { units: p })
    }
}

/// The id index and the two sides agree: each recorded id rests where it is
/// recorded, and each resting order is recorded where it rests.
pub open spec fn located(a: Map<i128, Seq<TradeOrder>>, b: Map<i128, Seq<TradeOrder>>, loc: Locations) -> bool {
    &&& forall|id: OrderId| #[trigger] loc.contains_key(id) ==> {
        let m = side_levels(a, b, loc[id].0);
        &&& m.contains_key(loc[id].1.units)
        &&& level_has(m[loc[id].1.units], id)
    }
    &&& placed(a, Side::Ask, loc)
    &&& placed(b, Side::Bid, loc)
}

/// Every level of `m` is a valid level of side `s`.
pub open spec fn levels_ok(m: Map<i128, Seq<TradeOrder>>, s: Side) -> bool {
    forall|p: i128| #[trigger] m.contains_key(p) ==> level_ok(m[p], s)
}

/// Ids of the orders of a sequence.
pub open spec fn ids_of(l: Seq<TradeOrder>) -> Set<OrderId> {
    l.map_values(|o: TradeOrder| o.id).to_set()
}

/// Replaces the level at `p` of side `s` by `l1`, whose orders are those of
/// the old level after its first `c` with the same ids, and forgets the ids of
/// those `c`: the index stays in agreement.
pub proof fn lemma_located_replace(
    a: Map<i128, Seq<TradeOrder>>,
    b: Map<i128, Seq<TradeOrder>>,
    loc: Locations,
    s: Side,
    p: i128,
    c: int,
    l1: Seq<TradeOrder>,
)
    requires
        located(a, b, loc),
        levels_ok(a, Side::Ask),
        levels_ok(b, Side::Bid),
        side_levels(a, b, s).contains_key(p),
        0 <= c <= side_levels(a, b, s)[p].len(),
        l1.len() == side_levels(a, b, s)[p].len() - c,
        forall|k: int| 0 <= k < l1.len() ==> (#[trigger] l1[k]).id == side_levels(a, b, s)[p][c + k].id,
    ensures
        ({
            let m1 = set_level(side_levels(a, b, s), p, l1);
            let loc1 = loc.remove_keys(ids_of(side_levels(a, b, s)[p].take(c)));
            match s {
                Side::Ask => located(m1, b, loc1),
                Side::Bid => located(a, m1, loc1),
            }
        }),
{
    let m = side_levels(a, b, s);
    let l0 = m[p];
    let gone = ids_of(l0.take(c));
    let m1 = set_level(m, p, l1);
    let loc1 = loc.remove_keys(gone);
    let a1 = if s == Side::Ask { m1 } else { a };
    let b1 = if s == Side::Bid { m1 } else { b };
    assert(level_ok(l0, s));
    assert forall|j: int| 0 <= j < l0.len() implies (gone.contains(#[trigger] l0[j].id) <==> j < c) by {
        let ids = l0.take(c).map_values(|o: TradeOrder| o.id);
        if j < c {
            assert(ids[j] == l0[j].id);
        }
        if gone.contains(l0[j].id) {
            let k = choose|k: int| 0 <= k < ids.len() && ids[k] == l0[j].id;
            assert(l0[k].id == l0[j].id);
            if k != j {
                if k < j {
                    assert(l0[k].id != l0[j].id);
                } else {
                    assert(l0[j].id != l0[k].id);
                }
            }
        }
    }
    assert forall|id: OrderId| gone.contains(id) implies loc.contains_key(id) && loc[id] == (s, Fixed { units: p }) by {
        let ids = l0.take(c).map_values(|o: TradeOrder| o.id);
        let k = choose|k: int| 0 <= k < ids.len() && ids[k] == id;
        assert(l0[k].id == id);
        assert(m[p][k] == l0[k]);
    }
    // Each recorded id that stays rests where it is recorded.
    assert forall|id: OrderId| #[trigger] loc1.contains_key(id) implies {
        let mm = side_levels(a1, b1, loc1[id].0);
        &&& mm.contains_key(loc1[id].1.units)
        &&& level_has(mm[loc1[id].1.units], id)
    } by {
        let (rs, rp) = loc[id];
        let q = rp.units;
        let m2 = side_levels(a, b, rs);
        assert(m2.contains_key(q) && level_has(m2[q], id));
        let j = choose|j: int| 0 <= j < m2[q].len() && #[trigger] m2[q][j].id == id;
        if rs == s && q == p {
            assert(m2[q] == l0);
            assert(!gone.contains(id));
            assert(j >= c);
            assert(l1[j - c].id == id);
            assert(l1.len() > 0);
            assert(side_levels(a1, b1, rs) == m1);
            assert(m1[q] == l1);
        } else {
            assert(side_levels(a1, b1, rs)[q] == m2[q]);
        }
    }
    // Each order that rests is recorded where it rests.
    assert forall|q: i128, i: int| #![trigger m1[q][i]] m1.contains_key(q) && 0 <= i < m1[q].len() implies {
        &&& loc1.contains_key(m1[q][i].id)
        &&& loc1[m1[q][i].id] == (s, Fixed { units: q })
    } by {
        if q == p {
            assert(m1[q] == l1);
            assert(l1[i].id == l0[c + i].id);
            assert(m[p][c + i] == l0[c + i]);
            assert(!gone.contains(l0[c + i].id));
        } else {
            assert(m1[q] == m[q]);
            assert(m[q][i] == m1[q][i]);
            if gone.contains(m[q][i].id) {
                assert(loc[m[q][i].id] == (s, Fixed { units: q }));
            }
        }
    }
    let o = side_levels(a, b, if s == Side::Ask { Side::Bid } else { Side::Ask });
    let so = if s == Side::Ask { Side::Bid } else { Side::Ask };
    assert forall|q: i128, i: int| #![trigger o[q][i]] o.contains_key(q) && 0 <= i < o[q].len() implies {
        &&& loc1.contains_key(o[q][i].id)
        &&& loc1[o[q][i].id] == (so, Fixed { units: q })
    } by {
        if s == Side::Ask {
            assert(placed(b, Side::Bid, loc));
        } else {
            assert(placed(a, Side::Ask, loc));
        }
        assert(loc[o[q][i].id] == (so, Fixed { units: q }));
    }
    if s == Side::Ask {
        assert(placed(m1, Side::Ask, loc1));
        assert(placed(b, Side::Bid, loc1));
    } else {
        assert(placed(a, Side::Ask, loc1));
        assert(placed(m1, Side::Bid, loc1));
    }
}

/// Taking the order at position `i` of the level at `p` of side `s` out, and
/// forgetting its id, keeps the index in agreement.
pub proof fn lemma_located_remove(
    a: Map<i128, Seq<TradeOrder>>,
    b: Map<i128, Seq<TradeOrder>>,
    loc: Locations,
    s: Side,
    p: i128,
    i: int,
)
    requires
        located(a, b, loc),
        levels_ok(a, Side::Ask),
        levels_ok(b, Side::Bid),
        side_levels(a, b, s).contains_key(p),
        0 <= i < side_levels(a, b, s)[p].len(),
    ensures
        ({
            let m1 = without(side_levels(a, b, s), p, i);
            let loc1 = loc.remove(side_levels(a, b, s)[p][i].id);
            match s {
                Side::Ask => located(m1, b, loc1),
                Side::Bid => located(a, m1, loc1),
            }
        }),
{
    let m = side_levels(a, b, s);
    let l0 = m[p];
    let id0 = l0[i].id;
    let l1 = l0.remove(i);
    let m1 = without(m, p, i);
    let loc1 = loc.remove(id0);
    let a1 = if s == Side::Ask { m1 } else { a };
    let b1 = if s == Side::Bid { m1 } else { b };
    assert(level_ok(l0, s));
    assert(m[p][i] == l0[i]);
    assert(loc[id0] == (s, Fixed { units: p }));
    assert forall|id: OrderId| #[trigger] loc1.contains_key(id) implies {
        let mm = side_levels(a1, b1, loc1[id].0);
        &&& mm.contains_key(loc1[id].1.units)
        &&& level_has(mm[loc1[id].1.units], id)
    } by {
        let (rs, rp) = loc[id];
        let q = rp.units;
        let m2 = side_levels(a, b, rs);
        assert(m2.contains_key(q) && level_has(m2[q], id));
        let j = choose|j: int| 0 <= j < m2[q].len() && #[trigger] m2[q][j].id == id;
        if rs == s && q == p {
            assert(j != i);
            let j1 = if j < i { j } else { j - 1 };
            assert(l1[j1].id == id);
            assert(side_levels(a1, b1, rs) == m1);
            assert(m1[q] == l1);
        } else {
            assert(side_levels(a1, b1, rs)[q] == m2[q]);
        }
    }
    assert forall|q: i128, k: int| #![trigger m1[q][k]] m1.contains_key(q) && 0 <= k < m1[q].len() implies {
        &&& loc1.contains_key(m1[q][k].id)
        &&& loc1[m1[q][k].id] == (s, Fixed { units: q })
    } by {
        if q == p {
            assert(m1[q] == l1);
            let k0 = if k < i { k } else { k + 1 };
            assert(l1[k] == l0[k0]);
            assert(m[p][k0] == l0[k0]);
            if k0 < i {
                assert(l0[k0].id != l0[i].id);
            } else {
                assert(l0[i].id != l0[k0].id);
            }
        } else {
            assert(m1[q] == m[q]);
            assert(m[q][k] == m1[q][k]);
        }
    }
    let o = side_levels(a, b, if s == Side::Ask { Side::Bid } else { Side::Ask });
    let so = if s == Side::Ask { Side::Bid } else { Side::Ask };
    assert forall|q: i128, k: int| #![trigger o[q][k]] o.contains_key(q) && 0 <= k < o[q].len() implies {
        &&& loc1.contains_key(o[q][k].id)
        &&& loc1[o[q][k].id] == (so, Fixed { units: q })
    } by {
        if s == Side::Ask {
            assert(placed(b, Side::Bid, loc));
        } else {
            assert(placed(a, Side::Ask, loc));
        }
        assert(loc[o[q][k].id] == (so, Fixed { units: q }));
    }
    if s == Side::Ask {
        assert(placed(m1, Side::Ask, loc1));
        assert(placed(b, Side::Bid, loc1));
    } else {
        assert(placed(a, Side::Ask, loc1));
        assert(placed(m1, Side::Bid, loc1));
    }
}

/// Appending a new order, whose id is not recorded, at the back of the level
/// at `p` of side `s`, and recording it there, keeps the index in agreement.
pub proof fn lemma_located_add(
    a: Map<i128, Seq<TradeOrder>>,
    b: Map<i128, Seq<TradeOrder>>,
    loc: Locations,
    s: Side,
    p: i128,
    o: TradeOrder,
)
    requires
        located(a, b, loc),
        !loc.contains_key(o.id),
    ensures
        ({
            let m1 = with_order(side_levels(a, b, s), p, o);
            let loc1 = loc.insert(o.id, (s, Fixed { units: p }));
            match s {
                Side::Ask => located(m1, b, loc1),
                Side::Bid => located(a, m1, loc1),
            }
        }),
{
    let m = side_levels(a, b, s);
    let m1 = with_order(m, p, o);
    let loc1 = loc.insert(o.id, (s, Fixed { units: p }));
    let a1 = if s == Side::Ask { m1 } else { a };
    let b1 = if s == Side::Bid { m1 } else { b };
    let l1 = m1[p];
    assert(l1[l1.len() - 1] == o);
    assert forall|id: OrderId| #[trigger] loc1.contains_key(id) implies {
        let mm = side_levels(a1, b1, loc1[id].0);
        &&& mm.contains_key(loc1[id].1.units)
        &&& level_has(mm[loc1[id].1.units], id)
    } by {
        if id == o.id {
            assert(side_levels(a1, b1, s) == m1);
            assert(l1[l1.len() - 1].id == id);
        } else {
            let (rs, rp) = loc[id];
            let q = rp.units;
            let m2 = side_levels(a, b, rs);
            assert(m2.contains_key(q) && level_has(m2[q], id));
            let j = choose|j: int| 0 <= j < m2[q].len() && #[trigger] m2[q][j].id == id;
            if rs == s && q == p {
                assert(side_levels(a1, b1, rs) == m1);
                assert(m1[q][j] == m2[q][j]);
            } else {
                assert(side_levels(a1, b1, rs)[q] == m2[q]);
            }
        }
    }
    assert forall|q: i128, k: int| #![trigger m1[q][k]] m1.contains_key(q) && 0 <= k < m1[q].len() implies {
        &&& loc1.contains_key(m1[q][k].id)
        &&& loc1[m1[q][k].id] == (s, Fixed { units: q })
    } by {
        if q == p && k == m1[q].len() - 1 {
            assert(m1[q][k] == o);
        } else {
            assert(m.contains_key(q) && m1[q][k] == m[q][k]);
            assert(loc.contains_key(m[q][k].id));
        }
    }
    let ot = side_levels(a, b, if s == Side::Ask { Side::Bid } else { Side::Ask });
    let so = if s == Side::Ask { Side::Bid } else { Side::Ask };
    assert forall|q: i128, k: int| #![trigger ot[q][k]] ot.contains_key(q) && 0 <= k < ot[q].len() implies {
        &&& loc1.contains_key(ot[q][k].id)
        &&& loc1[ot[q][k].id] == (so, Fixed { units: q })
    } by {
        if s == Side::Ask {
            assert(placed(b, Side::Bid, loc));
        } else {
            assert(placed(a, Side::Ask, loc));
        }
        assert(loc.contains_key(ot[q][k].id));
    }
    if s == Side::Ask {
        assert(placed(m1, Side::Ask, loc1));
        assert(placed(b, Side::Bid, loc1));
    } else {
        assert(placed(a, Side::Ask, loc1));
        assert(placed(m1, Side::Bid, loc1));
    }
}

/// Resetting a level at a price that a taker may reach changes what is
/// available to it by the difference of the two levels' volumes.
pub proof fn lemma_available_set_level(
    m: Map<i128, Seq<TradeOrder>>,
    s: Side,
    target: i128,
    p: i128,
    l1: Seq<TradeOrder>,
)
    requires
        m.dom().finite(),
        m.contains_key(p),
        within(s, p, target),
    ensures
        available(set_level(m, p, l1), s, target) == available(m, s, target) - level_volume(m[p]) + level_volume(l1),
{
    let w = Set::new(|q: i128| within(s, q, target));
    let r = m.restrict(w);
    vstd::set_lib::lemma_set_subset_finite(m.dom(), r.dom());
    assert(r.contains_key(p));
    if l1.len() == 0 {
        assert(set_level(m, p, l1).restrict(w) =~= r.remove(p));
        lemma_map_sum_remove(r, volume_term(), p);
        assert(l1 =~= Seq::<TradeOrder>::empty());
    } else {
        assert(set_level(m, p, l1).restrict(w) =~= r.insert(p, l1));
        lemma_map_sum_insert(r, volume_term(), p, l1);
    }
}

/// What a side offers is never negative.
pub proof fn lemma_available_nonneg(h: HalfBook, target: i128)
    requires
        h.wf(),
    ensures
        available(h.levels(), h.s, target) >= 0,
        volume(h.levels()) >= 0,
{
    h.lemma_volume_nonneg();
    let m = h.levels();
    let r = m.restrict(Set::new(|q: i128| within(h.s, q, target)));
    vstd::set_lib::lemma_set_subset_finite(m.dom(), r.dom());
    assert forall|k: i128| #[trigger] r.contains_key(k) implies volume_term()(r[k]) >= 0 by {
        assert(m.contains_key(k));
    }
    lemma_map_sum_nonneg(r, volume_term());
}

/// Nothing is available at `target` when no price of `m` is within it.
pub proof fn lemma_available_none(m: Map<i128, Seq<TradeOrder>>, s: Side, target: i128)
    requires
        forall|q: i128| #[trigger] m.contains_key(q) ==> !within(s, q, target),
    ensures
        available(m, s, target) == 0,
{
    let w = Set::new(|q: i128| within(s, q, target));
    let r = m.restrict(w);
    assert(r.dom() =~= Set::<i128>::empty());
    assert(!(exists|k: i128| r.dom().contains(k)));
}

/// A request the book accepts: a positive quantity, and a positive price where
/// the type carries one, both within the book's range.
pub open spec fn valid_request(r: OrderRequest) -> bool {
    &&& 0 < r.qty.val() <= MAX_UNITS
    &&& match r.order_type.spec_price() {
        Some(p) => 0 < p.val() <= MAX_UNITS,
        None => true,
    }
}

/// Whether `r` is valid.
pub fn is_valid_request(r: &OrderRequest) -> (b: bool)
    ensures
        b == valid_request(*r),
{
    let qty_ok = r.qty.units > 0 && r.qty.units <= MAX_UNITS;
    let price_ok = match r.order_type.price() {
        Some(p) => p.units > 0 && p.units <= MAX_UNITS,
        None => true,
    };
    qty_ok && price_ok
}

/// Position in its level of the maker of trade `i`: the first trade at a
/// price takes the head, each next one at the same price the order after.
pub open spec fn trade_pos(e: Seq<TradeExecution>, i: int) -> int
    decreases i,
{
    if i <= 0 || e[i - 1].price != e[i].price {
        0
    } else {
        trade_pos(e, i - 1) + 1
    }
}

/// The trades `e` took the orders of `m` in time priority within each price:
/// each maker is the order at its trade's position in the level, and every
/// trade but the last used its maker up.
#[verifier::opaque]
pub open spec fn in_priority(m: Map<i128, Seq<TradeOrder>>, e: Seq<TradeExecution>) -> bool {
    forall|i: int| 0 <= i < e.len() ==> {
        let l = m[(#[trigger] e[i]).price.units];
        &&& m.contains_key(e[i].price.units)
        &&& 0 <= trade_pos(e, i) < l.len()
        &&& e[i].maker_order_id == l[trade_pos(e, i)].id
        &&& i + 1 < e.len() ==> e[i].qty.val() == l[trade_pos(e, i)].remaining_qty.val()
    }
}

proof fn lemma_trade_pos_prefix(a: Seq<TradeExecution>, b: Seq<TradeExecution>, i: int)
    requires
        0 <= i < a.len(),
    ensures
        trade_pos(a + b, i) == trade_pos(a, i),
    decreases i,
{
    if i > 0 {
        assert((a + b)[i] == a[i] && (a + b)[i - 1] == a[i - 1]);
        lemma_trade_pos_prefix(a, b, i - 1);
    }
}

proof fn lemma_trade_pos_fresh(a: Seq<TradeExecution>, b: Seq<TradeExecution>, k: int, p: Price)
    requires
        0 <= k < b.len(),
        forall|j: int| 0 <= j < b.len() ==> (#[trigger] b[j]).price == p,
        a.len() > 0 ==> a.last().price != p,
    ensures
        trade_pos(a + b, a.len() + k) == k,
    decreases k,
{
    let c = a + b;
    assert(c[a.len() + k] == b[k]);
    if k > 0 {
        assert(c[a.len() + k - 1] == b[k - 1]);
        lemma_trade_pos_fresh(a, b, k - 1, p);
    } else if a.len() > 0 {
        assert(c[a.len() - 1] == a.last());
    }
}

/// Every level of `m0` at a price better than some trade's is gone from
/// `after`: trading reached a price only once the better ones were used up.
#[verifier::opaque]
pub open spec fn better_used_up(
    m0: Map<i128, Seq<TradeOrder>>,
    e: Seq<TradeExecution>,
    after: Map<i128, Seq<TradeOrder>>,
    o: Side,
) -> bool {
    forall|i: int, q: i128| #![trigger e[i], m0.contains_key(q)] 0 <= i < e.len() && m0.contains_key(q) && within(
        o,
        q,
        e[i].price.units,
    ) && q != e[i].price.units ==> !after.contains_key(q)
}

/// Where a sweep stands: the trades so far are in priority and have used up
/// the better levels; while the taker has quantity left, every traded level
/// is gone, the rest are untouched, and the last trade used its maker up.
#[verifier::opaque]
pub open spec fn sweep_progress(
    m0: Map<i128, Seq<TradeOrder>>,
    cur: Map<i128, Seq<TradeOrder>>,
    e: Seq<TradeExecution>,
    rem: int,
    o: Side,
) -> bool {
    &&& in_priority(m0, e)
    &&& better_used_up(m0, e, cur, o)
    &&& rem > 0 ==> forall|i: int| 0 <= i < e.len() ==> !cur.contains_key((#[trigger] e[i]).price.units)
    &&& rem > 0 ==> forall|q: i128| #[trigger] cur.contains_key(q) ==> cur[q] == m0[q]
    &&& rem > 0 && e.len() > 0 ==> ({
        let n = e.len() - 1;
        e[n].qty.val() == m0[e[n].price.units][trade_pos(e, n)].remaining_qty.val()
    })
}

/// One step of a sweep keeps the trades in time priority and the better
/// levels used up.
#[verifier::rlimit(80)]
proof fn lemma_sweep_step(
    m0: Map<i128, Seq<TradeOrder>>,
    before: Map<i128, Seq<TradeOrder>>,
    after: Map<i128, Seq<TradeOrder>>,
    o: Side,
    taker_side: Side,
    best: Price,
    ex_before: Seq<TradeExecution>,
    st: Seq<TradeExecution>,
    l1: Seq<TradeOrder>,
    rem_before: int,
    rem: int,
    taker: OrderId,
)
    requires
        before.contains_key(best.units),
        forall|q: i128| #[trigger] before.contains_key(q) ==> within(o, best.units, q),
        rem_before > 0,
        sweep_progress(m0, before, ex_before, rem_before, o),
        matched(before[best.units], st, l1, taker, taker_side, best),
        after == set_level(before, best.units, l1),
        rem == 0 || l1.len() == 0,
        m0.contains_key(best.units),
    ensures
        sweep_progress(m0, after, ex_before + st, rem, o),
{
    reveal(sweep_progress);
    reveal(in_priority);
    reveal(better_used_up);
    let all = ex_before + st;
    let nb = ex_before.len();
    let l0 = before[best.units];
    let n = st.len();
    assert(l0 == m0[best.units]);
    assert forall|j: int| 0 <= j < st.len() implies (#[trigger] st[j]).price == best by {}
    if nb > 0 {
        assert(ex_before[nb - 1] == ex_before.last());
    }
    assert forall|i: int| 0 <= i < all.len() implies {
        let l = m0[(#[trigger] all[i]).price.units];
        &&& m0.contains_key(all[i].price.units)
        &&& 0 <= trade_pos(all, i) < l.len()
        &&& all[i].maker_order_id == l[trade_pos(all, i)].id
        &&& i + 1 < all.len() ==> all[i].qty.val() == l[trade_pos(all, i)].remaining_qty.val()
    } by {
        if i < nb {
            lemma_trade_pos_prefix(ex_before, st, i);
            assert(all[i] == ex_before[i]);
        } else {
            lemma_trade_pos_fresh(ex_before, st, i - nb, best);
            assert(all[i] == st[i - nb]);
        }
    }
    if rem > 0 {
        if n > 0 && st[n - 1].qty.val() < l0[n - 1].remaining_qty.val() {
            assert(l1.len() == l0.len() - n + 1);
        }
        if all.len() > nb {
            lemma_trade_pos_fresh(ex_before, st, n - 1, best);
            assert(all[all.len() - 1] == st[n - 1]);
        }
        assert forall|i: int| 0 <= i < all.len() implies !after.contains_key((#[trigger] all[i]).price.units) by {
            if i < nb {
                assert(all[i] == ex_before[i]);
            } else {
                assert(all[i] == st[i - nb]);
            }
        }
    }
    assert forall|i: int, q: i128| #![trigger all[i], m0.contains_key(q)] 0 <= i < all.len() && m0.contains_key(q)
        && within(o, q, all[i].price.units) && q != all[i].price.units implies !after.contains_key(q) by {
        if i < nb {
            assert(all[i] == ex_before[i]);
        } else {
            assert(all[i] == st[i - nb]);
        }
    }
}

/// No bid is at or above an ask.
pub open spec fn not_crossed(a: Map<i128, Seq<TradeOrder>>, b: Map<i128, Seq<TradeOrder>>) -> bool {
    forall|x: i128, y: i128| #[trigger] a.contains_key(x) && #[trigger] b.contains_key(y) ==> y < x
}

/// An event of a book, in the order it happened.
#[derive(Clone, Copy, Debug)]
pub enum Notification {
    /// An order came to rest.
    OrderAdded { order_id: OrderId, price: Price, qty: Quantity, side: Side },
    /// A resting order was used up by a trade and left the book.
    OrderRemoved { order_id: OrderId, price: Price, qty: Quantity, side: Side },
    TradeExecuted(TradeExecution),
}

/// Each event of `ev` reports the removal of an order that was recorded in
/// `before` and is not in `after`.
pub open spec fn removal_events(ev: Seq<Notification>, before: Locations, after: Locations) -> bool {
    forall|k: int| 0 <= k < ev.len() ==> match #[trigger] ev[k] {
        Notification::OrderRemoved { order_id, .. } => before.contains_key(order_id) && !after.contains_key(order_id),
        _ => false,
    }
}

/// One `TradeExecuted` event per execution, in order.
fn trade_events(execs: &Vec<TradeExecution>) -> (r: Vec<Notification>)
    ensures
        r@.len() == execs@.len(),
        forall|i: int| 0 <= i < execs@.len() ==> #[trigger] r@[i] == Notification::TradeExecuted(execs@[i]),
{
    let mut r: Vec<Notification> = Vec::new();
    let mut i: usize = 0;
    while i < execs.len()
        invariant
            i <= execs@.len(),
            r@.len() == i,
            forall|k: int| 0 <= k < i ==> #[trigger] r@[k] == Notification::TradeExecuted(execs@[k]),
        decreases execs@.len() - i,
    {
        r.push(Notification::TradeExecuted(execs[i]));
        i += 1;
    }
    r
}

/// Snapshot of a book: the levels of each side with their total quantity.
/// Asks are listed worst first (descending price), bids best first
/// (descending price), so that both read from the top of the book down.
pub struct OrderBookState {
    pub asks: Vec<(Price, Quantity)>,
    pub bids: Vec<(Price, Quantity)>,
}

/// An order book for one instrument: asks, bids and the index from order id
/// to the place where the order rests.
pub struct OrderBook {
    pub asks: HalfBook,
    pub bids: HalfBook,
    pub order_loc: HashMap<OrderId, (Side, Price)>,
    /// Events not yet taken by the caller, oldest first.
    pub events: Vec<Notification>,
}

impl OrderBook {
    pub open spec fn ask_levels(self) -> Map<i128, Seq<TradeOrder>> {
        self.asks.levels()
    }

    pub open spec fn bid_levels(self) -> Map<i128, Seq<TradeOrder>> {
        self.bids.levels()
    }

    pub open spec fn at(self, s: Side) -> Map<i128, Seq<TradeOrder>> {
        side_levels(self.ask_levels(), self.bid_levels(), s)
    }

    pub open spec fn loc(self) -> Locations {
        self.order_loc@
    }

    pub open spec fn wf(self) -> bool {
        &&& self.asks.wf()
        &&& self.asks.s == Side::Ask
        &&& self.bids.wf()
        &&& self.bids.s == Side::Bid
        &&& located(self.ask_levels(), self.bid_levels(), self.loc())
        &&& self.loc().dom().finite()
        &&& self.loc().dom().len() == order_count(self.ask_levels()) + order_count(self.bid_levels())
    }

    /// The book is not crossed: every bid is below every ask.
    pub open spec fn is_uncrossed(self) -> bool {
        not_crossed(self.ask_levels(), self.bid_levels())
    }

    /// The order resting under `id`.
    pub open spec fn order_of(self, id: OrderId) -> TradeOrder {
        let (s, p) = self.loc()[id];
        let l = self.at(s)[p.units];
        l[index_of(l, id)]
    }

    /// Number of price levels of each side, asks first.
    pub open spec fn depth(self) -> (nat, nat) {
        (self.ask_levels().dom().len(), self.bid_levels().dom().len())
    }

    /// Remaining quantity resting on both sides.
    pub open spec fn total_volume(self) -> int {
        volume(self.ask_levels()) + volume(self.bid_levels())
    }

    pub fn new() -> (r: OrderBook)
        ensures
            r.wf(),
            r.is_uncrossed(),
            r.ask_levels() == Map::<i128, Seq<TradeOrder>>::empty(),
            r.bid_levels() == Map::<i128, Seq<TradeOrder>>::empty(),
            r.loc() == Map::<OrderId, (Side, Price)>::empty(),
    {
        let r = OrderBook {
            asks: HalfBook::new(Side::Ask),
            bids: HalfBook::new(Side::Bid),
            order_loc: HashMap::with_capacity(10_000),
            events: Vec::new(),
        };
        proof {
            let e = Map::<i128, Seq<TradeOrder>>::empty();
            assert(!(exists|k: i128| e.dom().contains(k)));
            assert(order_count(e) == 0);
        }
        r
    }

    proof fn lemma_levels_ok(self)
        requires
            self.wf(),
        ensures
            levels_ok(self.ask_levels(), Side::Ask),
            levels_ok(self.bid_levels(), Side::Bid),
    {
    }

    /// Rests `order` at the back of the level at `price` of side `side` and
    /// records its place. Its id must not be recorded yet.
    pub fn add_limit_order(&mut self, side: Side, price: Price, order: TradeOrder)
        requires
            old(self).wf(),
            order_rests(order, side),
            !old(self).loc().contains_key(order.id),
            0 < price.units <= MAX_UNITS,
            volume(old(self).at(side)) + order.remaining_qty.val() <= MAX_UNITS,
        ensures
            final(self).wf(),
            final(self).at(side) == with_order(old(self).at(side), price.units, order),
            final(self).at(side.spec_opposite()) == old(self).at(side.spec_opposite()),
            final(self).loc() == old(self).loc().insert(order.id, (side, price)),
            volume(final(self).at(side)) == volume(old(self).at(side)) + order.remaining_qty.val(),
            final(self).events == old(self).events,
    {
        let ghost a = self.ask_levels();
        let ghost b = self.bid_levels();
        let ghost loc = self.loc();
        proof {
            self.lemma_levels_ok();
            lemma_located_add(a, b, loc, side, price.units, order);
            assert(price == Fixed { units: price.units });
            assert(loc.insert(order.id, (side, price)).dom() =~= loc.dom().insert(order.id));
            let m = side_levels(a, b, side);
            if m.contains_key(price.units) && level_has(m[price.units], order.id) {
                let i = choose|i: int| 0 <= i < m[price.units].len() && #[trigger] m[price.units][i].id == order.id;
                if side == Side::Ask {
                    assert(placed(a, Side::Ask, loc));
                    assert(a[price.units][i] == m[price.units][i]);
                } else {
                    assert(placed(b, Side::Bid, loc));
                    assert(b[price.units][i] == m[price.units][i]);
                }
            }
        }
        self.order_loc.insert(order.id, (side, price));
        match side {
            Side::Ask => self.asks.add_order(price, order),
            Side::Bid => self.bids.add_order(price, order),
        }
    }

    /// Merges `order` into the resting order with its id, if there is one
    /// (which keeps its place in its level); otherwise rests it at `price` on
    /// side `side`.
    pub fn add_system_order(&mut self, side: Side, price: Price, order: TradeOrder)
        requires
            old(self).wf(),
            order_rests(order, side),
            0 < price.units <= MAX_UNITS,
            volume(old(self).at(side)) + order.remaining_qty.val() <= MAX_UNITS,
            old(self).loc().contains_key(order.id) ==> {
                &&& old(self).order_of(order.id).spec_mergable(order)
                &&& old(self).order_of(order.id).initial_qty.val() + order.initial_qty.val() <= MAX_UNITS
            },
        ensures
            final(self).wf(),
            final(self).events == old(self).events,
            final(self).at(side.spec_opposite()) == old(self).at(side.spec_opposite()),
            volume(final(self).at(side)) == volume(old(self).at(side)) + order.remaining_qty.val(),
            old(self).loc().contains_key(order.id) ==> {
                let (s, p) = old(self).loc()[order.id];
                let l = old(self).at(side)[p.units];
                let i = index_of(l, order.id);
                let n = final(self).at(side)[p.units];
                &&& s == side
                &&& final(self).loc() == old(self).loc()
                &&& final(self).at(side) == old(self).at(side).insert(p.units, n)
                &&& n == l.update(i, n[i])
                &&& merged(n[i], l[i], order)
            },
            !old(self).loc().contains_key(order.id) ==> {
                &&& final(self).at(side) == with_order(old(self).at(side), price.units, order)
                &&& final(self).loc() == old(self).loc().insert(order.id, (side, price))
            },
    {
        let ghost a = self.ask_levels();
        let ghost b = self.bid_levels();
        let ghost loc = self.loc();
        let found = match self.order_loc.get(&order.id) {
            Some(x) => Some(*x),
            None => None,
        };
        match found {
            Some((s, p)) => {
                proof {
                    self.lemma_levels_ok();
                    let m = side_levels(a, b, s);
                    let l = m[p.units];
                    assert(m.contains_key(p.units) && level_has(l, order.id));
                    let i = index_of(l, order.id);
                    assert(l[i].id == order.id);
                    assert(level_ok(l, s));
                    assert(order_rests(l[i], s));
                    assert(s == side);
                }
                match s {
                    Side::Ask => self.asks.merge_at(&p, order),
                    Side::Bid => self.bids.merge_at(&p, order),
                }
                proof {
                    let m = side_levels(a, b, s);
                    let l = m[p.units];
                    let i = index_of(l, order.id);
                    let n = self.at(s)[p.units];
                    lemma_located_replace(a, b, loc, s, p.units, 0, n);
                    assert(l.take(0).map_values(|o: TradeOrder| o.id).to_set() =~= Set::<OrderId>::empty());
                    assert(loc.remove_keys(Set::<OrderId>::empty()) =~= loc);
                    assert(set_level(m, p.units, n) == m.insert(p.units, n));
                    assert forall|k: int| 0 <= k < n.len() implies (#[trigger] n[k]).id == m[p.units][0 + k].id by {
                        if k != i {
                            assert(n[k] == l[k]);
                        }
                    }
                }
            },
            None => {
                self.add_limit_order(side, price, order);
            },
        }
    }

    /// One step of matching: `t` takes liquidity from the level at `best` of
    /// the other side; makers used up leave the index.
    fn match_step(&mut self, t: &mut TradeOrder, best: Price, removed: &mut Vec<Notification>) -> (execs: Vec<TradeExecution>)
        requires
            old(self).wf(),
            old(t).wf(),
            old(t).remaining_qty.val() > 0,
            old(self).at(old(t).side.spec_opposite()).contains_key(best.units),
        ensures
            final(self).wf(),
            final(self).at(old(t).side) == old(self).at(old(t).side),
            ({
                let o = old(t).side.spec_opposite();
                let l0 = old(self).at(o)[best.units];
                let l1 = level_at(final(self).at(o), best.units);
                &&& final(self).at(o) == set_level(old(self).at(o), best.units, l1)
                &&& matched(l0, execs@, l1, old(t).id, old(t).side, best)
                &&& level_volume(l1) == level_volume(l0) - executed_qty(execs@)
                &&& volume(final(self).at(o)) == volume(old(self).at(o)) - executed_qty(execs@)
                &&& final(t).remaining_qty.val() == 0 || l1.len() == 0
            }),
            final(self).loc().submap_of(old(self).loc()),
            final(self).events == old(self).events,
            final(removed)@.len() >= old(removed)@.len(),
            final(removed)@.take(old(removed)@.len() as int) == old(removed)@,
            removal_events(final(removed)@.skip(old(removed)@.len() as int), old(self).loc(), final(self).loc()),
            final(removed)@.len() - old(removed)@.len() == old(self).loc().dom().len() - final(self).loc().dom().len(),
            final(removed)@.len() - old(removed)@.len() <= execs@.len(),
            final(t).wf(),
            final(t).id == old(t).id,
            final(t).side == old(t).side,
            final(t).order_type == old(t).order_type,
            final(t).initial_qty == old(t).initial_qty,
            final(t).cancelled_qty == old(t).cancelled_qty,
            final(t).remaining_qty.val() == old(t).remaining_qty.val() - executed_qty(execs@),
            final(t).fills@.len() == old(t).fills@.len() + execs@.len(),
            executed_qty(execs@) > 0,
            forall|i: int| 0 <= i < execs@.len() ==> {
                &&& (#[trigger] execs@[i]).taker_order_id == old(t).id
                &&& execs@[i].take_side == old(t).side
                &&& execs@[i].price == best
                &&& execs@[i].qty.val() > 0
                &&& old(self).loc().contains_key(execs@[i].maker_order_id)
                &&& old(self).loc()[execs@[i].maker_order_id] == (old(t).side.spec_opposite(), best)
            },
    {
        let ghost a = self.ask_levels();
        let ghost b = self.bid_levels();
        let ghost loc = self.loc();
        let ghost o = t.side.spec_opposite();
        let ghost l0 = self.at(o)[best.units];
        proof {
            self.lemma_levels_ok();
        }
        let opp_side = t.side.opposite();
        let execs = match opp_side {
            Side::Ask => self.asks.match_order(t, best),
            Side::Bid => self.bids.match_order(t, best),
        };
        let ghost l1 = level_at(self.at(o), best.units);
        let n = execs.len();
        let last_stays = if n == 0 {
            false
        } else {
            let level = match opp_side {
                Side::Ask => self.asks.get_price_level(&best),
                Side::Bid => self.bids.get_price_level(&best),
            };
            match level {
                Some(level) => level.len() > 0 && level[0].id == execs[n - 1].maker_order_id,
                None => false,
            }
        };
        let c = if last_stays { n - 1 } else { n };
        proof {
            assert(level_at(side_levels(a, b, o), best.units) == l0);
            assert(level_ok(l0, o));
            let partial = n > 0 && execs@[n - 1].qty.val() < l0[n - 1].remaining_qty.val();
            if partial {
                assert(l1[0].id == l0[n - 1].id);
                assert(last_stays);
            } else {
                assert(l1 == l0.skip(n as int));
                if n > 0 && l1.len() > 0 {
                    assert(l1[0] == l0[n as int]);
                    assert(l0[n - 1].id != l0[n as int].id);
                }
                assert(!last_stays);
            }
            assert(c == l0.len() - l1.len());
            assert forall|k: int| 0 <= k < l1.len() implies (#[trigger] l1[k]).id == l0[c + k].id by {
                if partial {
                    if k > 0 {
                        assert(l1[k] == l1.skip(1)[k - 1]);
                        assert(l0.skip(n as int)[k - 1] == l0[n + k - 1]);
                    }
                } else {
                    assert(l1[k] == l0.skip(n as int)[k]);
                }
            }
            lemma_located_replace(a, b, loc, o, best.units, c as int, l1);
            assert(l0.take(0).map_values(|x: TradeOrder| x.id).to_set() =~= Set::<OrderId>::empty());
            assert(loc.remove_keys(Set::<OrderId>::empty()) =~= loc);
        }
        let ghost r0 = removed@;
        let mut j: usize = 0;
        while j < c
            invariant
                removed@.len() == r0.len() + j,
                removed@.take(r0.len() as int) == r0,
                forall|k: int| 0 <= k < j ==> #[trigger] removed@[r0.len() + k] == (Notification::OrderRemoved {
                    order_id: l0[k].id,
                    price: best,
                    qty: Fixed { units: 0 },
                    side: opp_side,
                }),
                opp_side == o,
                self.events == old(self).events,
                j <= c,
                c <= n,
                n == execs@.len(),
                c <= l0.len(),
                level_ok(l0, o),
                placed(side_levels(a, b, o), o, loc),
                side_levels(a, b, o).contains_key(best.units),
                l0 == side_levels(a, b, o)[best.units],
                forall|i: int| 0 <= i < n ==> (#[trigger] execs@[i]).maker_order_id == l0[i].id,
                self.loc() == loc.remove_keys(ids_of(l0.take(j as int))),
                self.loc().dom().len() == loc.dom().len() - j,
                self.loc().dom().finite(),
                self.asks == old(self).asks || o == Side::Ask,
                self.ask_levels() == (if o == Side::Ask { set_level(a, best.units, l1) } else { a }),
                self.bid_levels() == (if o == Side::Bid { set_level(b, best.units, l1) } else { b }),
                self.asks.s == Side::Ask,
                self.bids.s == Side::Bid,
                self.asks.wf(),
                self.bids.wf(),
            decreases c - j,
        {
            let id = execs[j].maker_order_id;
            proof {
                let f = |x: TradeOrder| x.id;
                let pre = l0.take(j as int);
                assert(l0.take(j as int + 1).map_values(f) =~= pre.map_values(f).push(l0[j as int].id));
                pre.map_values(f).lemma_push_to_set_commute(l0[j as int].id);
                assert(ids_of(l0.take(j as int + 1)) =~= ids_of(pre).insert(l0[j as int].id));
                assert(loc.remove_keys(ids_of(pre).insert(l0[j as int].id)) =~= loc.remove_keys(ids_of(pre)).remove(l0[j as int].id));
                assert(side_levels(a, b, o)[best.units][j as int] == l0[j as int]);
                assert(loc.contains_key(l0[j as int].id));
                if ids_of(pre).contains(l0[j as int].id) {
                    let k = choose|k: int| 0 <= k < pre.map_values(f).len() && pre.map_values(f)[k] == l0[j as int].id;
                    assert(l0[k].id != l0[j as int].id);
                }
                assert(self.loc().contains_key(id));
                assert(self.loc().remove(id).dom() =~= self.loc().dom().remove(id));
            }
            self.order_loc.remove(&id);
            removed.push(Notification::OrderRemoved { order_id: id, price: best, qty: Fixed::zero(), side: opp_side });
            proof {
                assert(removed@.take(r0.len() as int) =~= r0);
            }
            j += 1;
        }
        proof {
            let new = removed@.skip(r0.len() as int);
            assert forall|k: int| 0 <= k < new.len() implies match #[trigger] new[k] {
                Notification::OrderRemoved { order_id, .. } => loc.contains_key(order_id) && !self.loc().contains_key(order_id),
                _ => false,
            } by {
                assert(new[k] == removed@[r0.len() + k]);
                assert(side_levels(a, b, o)[best.units][k] == l0[k]);
                let f = |x: TradeOrder| x.id;
                assert(l0.take(c as int).map_values(f)[k] == l0[k].id);
                assert(ids_of(l0.take(c as int)).contains(l0[k].id));
            }
        }
        proof {
            assert(volume(self.at(o)) == volume(side_levels(a, b, o)) - executed_qty(execs@));
        }
        proof {
            assert(best == Fixed { units: best.units });
            assert forall|k: int| 0 <= k < execs@.len() implies loc.contains_key((#[trigger] execs@[k]).maker_order_id)
                && loc[execs@[k].maker_order_id] == (o, best) by {
                assert(execs@[k].maker_order_id == l0[k].id);
                if o == Side::Ask {
                    assert(a[best.units][k] == l0[k]);
                } else {
                    assert(b[best.units][k] == l0[k]);
                }
            }
        }
        execs
    }

    /// Whether a taker with this limit may trade at `best`: always without a
    /// limit; otherwise when `best` is at the limit or better.
    pub open spec fn eligible(taker_side: Side, limit: Option<Price>, best: i128) -> bool {
        match limit {
            None => true,
            Some(l) => within(taker_side.spec_opposite(), best, l.units),
        }
    }

    /// Matches `t` against the other side, best level first, while it has
    /// quantity left and the best level is eligible for `limit`.
    fn sweep(&mut self, t: &mut TradeOrder, limit: Option<Price>, removed: &mut Vec<Notification>) -> (execs: Vec<TradeExecution>)
        requires
            old(self).wf(),
            old(t).wf(),
        ensures
            final(self).wf(),
            final(self).at(old(t).side) == old(self).at(old(t).side),
            ({
                let o = old(t).side.spec_opposite();
                &&& final(self).at(o).dom().subset_of(old(self).at(o).dom())
                &&& volume(final(self).at(o)) == volume(old(self).at(o)) - executed_qty(execs@)
                &&& final(t).remaining_qty.val() > 0 ==> forall|q: i128| #[trigger] final(self).at(o).contains_key(q)
                    ==> !Self::eligible(old(t).side, limit, q)
                &&& limit matches Some(l) ==> final(t).remaining_qty.val() - available(final(self).at(o), o, l.units)
                    == old(t).remaining_qty.val() - available(old(self).at(o), o, l.units)
            }),
            final(self).loc().submap_of(old(self).loc()),
            final(self).events == old(self).events,
            final(removed)@.len() >= old(removed)@.len(),
            final(removed)@.take(old(removed)@.len() as int) == old(removed)@,
            removal_events(final(removed)@.skip(old(removed)@.len() as int), old(self).loc(), final(self).loc()),
            final(removed)@.len() - old(removed)@.len() == old(self).loc().dom().len() - final(self).loc().dom().len(),
            final(removed)@.len() - old(removed)@.len() <= execs@.len(),
            execs@.len() == 0 ==> final(self).at(old(t).side.spec_opposite()) == old(self).at(old(t).side.spec_opposite())
                && final(self).loc() == old(self).loc(),
            final(t).wf(),
            final(t).id == old(t).id,
            final(t).side == old(t).side,
            final(t).order_type == old(t).order_type,
            final(t).initial_qty == old(t).initial_qty,
            final(t).cancelled_qty == old(t).cancelled_qty,
            final(t).remaining_qty.val() == old(t).remaining_qty.val() - executed_qty(execs@),
            final(t).fills@.len() == old(t).fills@.len() + execs@.len(),
            forall|i: int| 0 <= i < execs@.len() ==> {
                &&& (#[trigger] execs@[i]).taker_order_id == old(t).id
                &&& execs@[i].take_side == old(t).side
                &&& execs@[i].qty.val() > 0
                &&& Self::eligible(old(t).side, limit, execs@[i].price.units)
                &&& old(self).at(old(t).side.spec_opposite()).contains_key(execs@[i].price.units)
                &&& old(self).loc().contains_key(execs@[i].maker_order_id)
                &&& old(self).loc()[execs@[i].maker_order_id] == (old(t).side.spec_opposite(), execs@[i].price)
            },
            forall|i: int, j: int| #![trigger execs@[i], execs@[j]] 0 <= i < j < execs@.len() ==> within(
                old(t).side.spec_opposite(),
                execs@[i].price.units,
                execs@[j].price.units,
            ),
            in_priority(old(self).at(old(t).side.spec_opposite()), execs@),
            better_used_up(old(self).at(old(t).side.spec_opposite()), execs@, final(self).at(old(t).side.spec_opposite()), old(t).side.spec_opposite()),
    {
        let ghost o = t.side.spec_opposite();
        let ghost s0 = *self;
        let ghost t0 = *t;
        let ghost rm0 = removed@;
        let mut executions: Vec<TradeExecution> = Vec::new();
        proof {
            assert(self.loc().submap_of(self.loc()));
            assert(sweep_progress(s0.at(o), self.at(o), executions@, t.remaining_qty.val(), o)) by {
                reveal(sweep_progress);
                reveal(in_priority);
                reveal(better_used_up);
            }
            assert(removed@.take(rm0.len() as int) =~= rm0);
            assert(removed@.skip(rm0.len() as int) =~= Seq::<Notification>::empty());
        }
        loop
            invariant
                self.wf(),
                self.at(t0.side) == s0.at(t0.side),
                o == t0.side.spec_opposite(),
                self.at(o).dom().subset_of(s0.at(o).dom()),
                volume(self.at(o)) == volume(s0.at(o)) - executed_qty(executions@),
                limit matches Some(l) ==> t.remaining_qty.val() - available(self.at(o), o, l.units)
                    == t0.remaining_qty.val() - available(s0.at(o), o, l.units),
                self.loc().submap_of(s0.loc()),
                t.wf(),
                t.id == t0.id,
                t.side == t0.side,
                t.order_type == t0.order_type,
                t.initial_qty == t0.initial_qty,
                t.cancelled_qty == t0.cancelled_qty,
                t.remaining_qty.val() == t0.remaining_qty.val() - executed_qty(executions@),
                t.fills@.len() == t0.fills@.len() + executions@.len(),
                forall|i: int| 0 <= i < executions@.len() ==> {
                    &&& (#[trigger] executions@[i]).taker_order_id == t0.id
                    &&& executions@[i].take_side == t0.side
                    &&& executions@[i].qty.val() > 0
                    &&& Self::eligible(t0.side, limit, executions@[i].price.units)
                    &&& s0.at(o).contains_key(executions@[i].price.units)
                    &&& s0.loc().contains_key(executions@[i].maker_order_id)
                    &&& s0.loc()[executions@[i].maker_order_id] == (o, executions@[i].price)
                },
                forall|i: int, j: int| #![trigger executions@[i], executions@[j]] 0 <= i < j < executions@.len()
                    ==> within(o, executions@[i].price.units, executions@[j].price.units),
                forall|i: int, q: i128| #![trigger executions@[i], self.at(o).contains_key(q)] 0 <= i < executions@.len()
                    && self.at(o).contains_key(q) ==> within(o, executions@[i].price.units, q),
                sweep_progress(s0.at(o), self.at(o), executions@, t.remaining_qty.val(), o),
                executions@.len() == 0 ==> self.at(o) == s0.at(o) && self.loc() == s0.loc(),
                self.events == s0.events,
                removed@.len() >= rm0.len(),
                removed@.take(rm0.len() as int) == rm0,
                removal_events(removed@.skip(rm0.len() as int), s0.loc(), self.loc()),
                removed@.len() - rm0.len() == s0.loc().dom().len() - self.loc().dom().len(),
                removed@.len() - rm0.len() <= executions@.len(),
                self.loc().dom().finite(),
            ensures
                t.remaining_qty.val() > 0 ==> forall|q: i128| #[trigger] self.at(o).contains_key(q) ==> !Self::eligible(t0.side, limit, q),
            decreases t.remaining_qty.units,
        {
            if !t.remaining_qty.is_positive() {
                break;
            }
            let best = match t.side {
                Side::Bid => self.asks.best_price(),
                Side::Ask => self.bids.best_price(),
            };
            let best = match best {
                Some(b) => b,
                None => break,
            };
            let ok = match limit {
                None => true,
                Some(l) => match t.side {
                    Side::Bid => best.units <= l.units,
                    Side::Ask => best.units >= l.units,
                },
            };
            if !ok {
                proof {
                    assert forall|q: i128| #[trigger] self.at(o).contains_key(q) implies !Self::eligible(t0.side, limit, q) by {
                        if t0.side == Side::Bid {
                            assert(self.asks.is_best(best.units));
                        } else {
                            assert(self.bids.is_best(best.units));
                        }
                    }
                }
                break;
            }
            let ghost before = *self;
            let ghost tb_rem = t.remaining_qty.val();
            let ghost loc_before = self.loc();
            assert(loc_before.submap_of(s0.loc()));
            let ghost ex_before = executions@;
            let ghost rm_before = removed@;
            let mut step = self.match_step(t, best, removed);
            proof {
                let m = before.at(o);
                let l1 = level_at(self.at(o), best.units);
                assert(self.at(o).dom().subset_of(m.dom()));
                if let Some(l) = limit {
                    lemma_available_set_level(m, o, l.units, best.units, l1);
                }
                let ghost st = step@;
                assert forall|i: int| 0 <= i < st.len() implies Self::eligible(t0.side, limit, (#[trigger] st[i]).price.units)
                    && s0.at(o).contains_key(st[i].price.units) by {
                    assert(st[i].price == best);
                }
                lemma_executed_qty_append(ex_before, st);
                assert forall|q: i128| #[trigger] m.contains_key(q) implies within(o, best.units, q) by {
                    if t0.side == Side::Bid {
                        assert(before.asks.is_best(best.units));
                    } else {
                        assert(before.bids.is_best(best.units));
                    }
                }
            }
            let ghost st = step@;
            executions.append(&mut step);
            proof {
                let all = executions@;
                let nb = ex_before.len();
                assert(all == ex_before + st);
                assert forall|i: int| 0 <= i < all.len() implies s0.loc().contains_key((#[trigger] all[i]).maker_order_id)
                    && s0.loc()[all[i].maker_order_id] == (o, all[i].price) by {
                    if i < nb {
                        assert(all[i] == ex_before[i]);
                    } else {
                        assert(all[i] == st[i - nb]);
                        let id = st[i - nb].maker_order_id;
                        assert(loc_before.contains_key(id));
                        assert(loc_before.dom().contains(id));
                        assert(s0.loc().dom().contains(id));
                        assert(loc_before[id] == s0.loc()[id]);
                    }
                }
                assert forall|i: int, j: int| #![trigger all[i], all[j]] 0 <= i < j < all.len() implies within(
                    o,
                    all[i].price.units,
                    all[j].price.units,
                ) by {
                    if j >= nb {
                        assert(all[j] == st[j - nb]);
                        assert(all[j].price == best);
                        if i < nb {
                            assert(all[i] == ex_before[i]);
                            assert(before.at(o).contains_key(best.units));
                        } else {
                            assert(all[i] == st[i - nb]);
                        }
                    } else {
                        assert(all[i] == ex_before[i] && all[j] == ex_before[j]);
                    }
                }
                assert forall|i: int, q: i128| #![trigger all[i], self.at(o).contains_key(q)] 0 <= i < all.len()
                    && self.at(o).contains_key(q) implies within(o, all[i].price.units, q) by {
                    assert(before.at(o).contains_key(q));
                    if i < nb {
                        assert(all[i] == ex_before[i]);
                    } else {
                        assert(all[i] == st[i - nb]);
                    }
                }
                assert forall|q: i128| #[trigger] before.at(o).contains_key(q) implies within(o, best.units, q) by {
                    if t0.side == Side::Bid {
                        assert(before.asks.is_best(best.units));
                    } else {
                        assert(before.bids.is_best(best.units));
                    }
                }
                lemma_sweep_step(s0.at(o), before.at(o), self.at(o), o, t0.side, best, ex_before, st,
                    level_at(self.at(o), best.units), tb_rem, t.remaining_qty.val(), t0.id);
                assert(all == ex_before + st);
                assert(removed@.take(rm0.len() as int) =~= rm0) by {
                    assert(rm_before.take(rm0.len() as int) == rm0);
                    assert(removed@.take(rm_before.len() as int) == rm_before);
                }
                let all = removed@.skip(rm0.len() as int);
                let first = rm_before.skip(rm0.len() as int);
                let second = removed@.skip(rm_before.len() as int);
                assert forall|k: int| 0 <= k < all.len() implies match #[trigger] all[k] {
                    Notification::OrderRemoved { order_id, .. } => s0.loc().contains_key(order_id) && !self.loc().contains_key(order_id),
                    _ => false,
                } by {
                    if k < first.len() {
                        assert(all[k] == removed@[rm0.len() + k]);
                        assert(removed@[rm0.len() + k] == removed@.take(rm_before.len() as int)[rm0.len() + k]);
                        assert(first[k] == rm_before[rm0.len() + k]);
                        match all[k] {
                            Notification::OrderRemoved { order_id, .. } => {
                                assert(!loc_before.contains_key(order_id));
                            },
                            _ => {},
                        }
                    } else {
                        assert(all[k] == second[k - first.len()]);
                        match all[k] {
                            Notification::OrderRemoved { order_id, .. } => {
                                assert(loc_before.contains_key(order_id));
                                assert(loc_before.dom().contains(order_id));
                                assert(s0.loc().dom().contains(order_id));
                            },
                            _ => {},
                        }
                    }
                }
                assert forall|k: OrderId| #[trigger] self.loc().contains_key(k) implies s0.loc().contains_key(k)
                    && self.loc()[k] == s0.loc()[k] by {
                    assert(self.loc().dom().contains(k));
                    assert(loc_before.dom().contains(k));
                    assert(s0.loc().dom().contains(k));
                    assert(self.loc()[k] == loc_before[k]);
                    assert(loc_before[k] == s0.loc()[k]);
                }
            }
        }
        proof {
            reveal(sweep_progress);
        }
        executions
    }

    /// Conditions a placement relies on: room on the request's side, a fresh
    /// id for a limit order, and for a system-level order with a resting id, a
    /// resting order of the same side and type that the merge keeps in range.
    pub open spec fn admissible(self, r: OrderRequest) -> bool {
        &&& volume(self.at(r.side)) + r.qty.val() <= MAX_UNITS
        &&& r.order_type is Limit ==> !self.loc().contains_key(r.id)
        &&& (r.order_type is SystemLevel && self.loc().contains_key(r.id)) ==> {
            &&& self.order_of(r.id).side == r.side
            &&& self.order_of(r.id).order_type == r.order_type
            &&& self.order_of(r.id).initial_qty.val() + r.qty.val() <= MAX_UNITS
        }
    }

    /// A fill-or-kill request that the other side cannot fill at its price.
    pub open spec fn fok_rejects(self, r: OrderRequest) -> bool {
        &&& r.order_type is FOK
        &&& available(self.at(r.side.spec_opposite()), r.side.spec_opposite(), r.order_type->FOK_0.units) < r.qty.val()
    }

    /// A resting order at `price` on side `s` would meet the other side.
    pub open spec fn crosses(self, s: Side, price: Price) -> bool {
        exists|q: i128| #[trigger] self.at(s.spec_opposite()).contains_key(q) && within(s.spec_opposite(), q, price.units)
    }

    /// The placed order comes to rest as a new order.
    pub open spec fn rests_new(self, order: OrderRequest, res: OrderResult) -> bool {
        ||| (order.order_type is Limit && res.remaining_qty.val() > 0)
        ||| (order.order_type is SystemLevel && !self.loc().contains_key(order.id))
    }

    /// The events of a placement, in order: one per trade, then one per maker
    /// that left the book, then, if the order came to rest as a new order, its
    /// arrival. A merge is silent.
    pub open spec fn new_events(
        self,
        order: OrderRequest,
        res: OrderResult,
        execs: Seq<TradeExecution>,
        new: Seq<Notification>,
        after: Locations,
    ) -> bool {
        let n = execs.len();
        let a: int = if self.rests_new(order, res) { 1 } else { 0 };
        let m = new.len() - n - a;
        &&& 0 <= m <= n
        &&& forall|i: int| 0 <= i < n ==> #[trigger] new[i] == Notification::TradeExecuted(execs[i])
        &&& removal_events(new.subrange(n as int, n + m), self.loc(), after)
        &&& self.rests_new(order, res) ==> new.last() == (Notification::OrderAdded {
            order_id: order.id,
            price: order.order_type.spec_price().unwrap(),
            qty: res.remaining_qty,
            side: order.side,
        })
    }

    /// What the other side offers `order` at its price or better: the volume
    /// within its limit, or all of it for a market order.
    pub open spec fn reachable(self, order: OrderRequest) -> int {
        let o = order.side.spec_opposite();
        match order.order_type.spec_price() {
            Some(l) => available(self.at(o), o, l.units),
            None => volume(self.at(o)),
        }
    }

    /// What placing `order` on this book does, giving `r` and leaving `after`:
    /// see `add_order`.
    pub open spec fn place_outcome(self, order: OrderRequest, r: (OrderResult, Vec<TradeExecution>), after: OrderBook) -> bool {
        &&& after.wf()
        &&& (!valid_request(order) || self.fok_rejects(order)) ==> {
            &&& r.0.status == OrderStatus::Cancelled
            &&& r.0.fills@.len() == 0
            &&& r.1@.len() == 0
            &&& after.ask_levels() == self.ask_levels()
            &&& after.bid_levels() == self.bid_levels()
            &&& after.loc() == self.loc()
            &&& after.events == self.events
        }
        &&& (valid_request(order) && !self.fok_rejects(order)) ==> {
            let (res, execs) = r;
            let s = order.side;
            let o = s.spec_opposite();
            &&& after.events@.len() >= self.events@.len()
            &&& after.events@.take(self.events@.len() as int) == self.events@
            &&& self.new_events(order, res, execs@, after.events@.skip(self.events@.len() as int), after.loc())
            &&& res.traid_id == order.id
            &&& res.side == s
            &&& res.order_type == order.order_type
            &&& res.initial_qty == order.qty
            &&& res.remaining_qty.val() == order.qty.val() - executed_qty(execs@)
            &&& res.fills@.len() == execs@.len()
            &&& fills_qty(res.fills@) == executed_qty(execs@)
            &&& res.remaining_qty.val() >= 0
            &&& res.status == status_of(res.remaining_qty, res.fills@, order.order_type)
            &&& forall|i: int| 0 <= i < execs@.len() ==> {
                &&& (#[trigger] execs@[i]).taker_order_id == order.id
                &&& execs@[i].take_side == s
                &&& execs@[i].qty.val() > 0
                &&& Self::eligible(s, order.order_type.spec_price(), execs@[i].price.units)
                &&& self.at(o).contains_key(execs@[i].price.units)
                &&& self.loc().contains_key(execs@[i].maker_order_id)
                &&& self.loc()[execs@[i].maker_order_id] == (o, execs@[i].price)
                &&& level_has(self.at(o)[execs@[i].price.units], execs@[i].maker_order_id)
            }
            &&& forall|i: int, j: int| #![trigger execs@[i], execs@[j]] 0 <= i < j < execs@.len() ==> within(
                o,
                execs@[i].price.units,
                execs@[j].price.units,
            )
            &&& !(order.order_type is SystemLevel) ==> in_priority(self.at(o), execs@)
            &&& !(order.order_type is SystemLevel) ==> better_used_up(self.at(o), execs@, after.at(o), o)
            &&& (!(order.order_type is SystemLevel) && res.remaining_qty.val() > 0) ==> forall|q: i128|
                #[trigger] after.at(o).contains_key(q) ==> !Self::eligible(s, order.order_type.spec_price(), q)
            &&& !(order.order_type is SystemLevel) ==> executed_qty(execs@) == if order.qty.val() <= self.reachable(order) {
                order.qty.val()
            } else {
                self.reachable(order)
            }
            &&& execs@.len() == 0 ==> after.at(o) == self.at(o)
            &&& order.order_type is SystemLevel ==> execs@.len() == 0
            &&& order.order_type is FOK ==> res.remaining_qty.val() == 0
            &&& after.at(o).dom().subset_of(self.at(o).dom())
            &&& volume(after.at(o)) == volume(self.at(o)) - executed_qty(execs@)
            &&& (order.order_type is Market || order.order_type is IOC || order.order_type is FOK
                || res.remaining_qty.val() == 0) ==> {
                &&& after.at(s) == self.at(s)
                &&& after.loc().submap_of(self.loc())
            }
            &&& (order.order_type is Limit && res.remaining_qty.val() > 0) ==> {
                let p = order.order_type->Limit_0;
                let rested = after.at(s)[p.units].last();
                &&& after.at(s) == with_order(self.at(s), p.units, rested)
                &&& res.describes(rested)
                &&& rested.cancelled_qty.val() == 0
                &&& after.loc().contains_key(order.id)
                &&& after.loc()[order.id] == (s, p)
            }
            &&& order.order_type is SystemLevel ==> {
                &&& volume(after.at(s)) == volume(self.at(s)) + order.qty.val()
                &&& after.loc().contains_key(order.id)
                &&& self.loc().contains_key(order.id) ==> {
                    &&& after.order_of(order.id).remaining_qty.val() == self.order_of(order.id).remaining_qty.val() + order.qty.val()
                    &&& after.order_of(order.id).initial_qty.val() == self.order_of(order.id).initial_qty.val() + order.qty.val()
                }
                &&& !self.loc().contains_key(order.id) ==> {
                    &&& after.order_of(order.id).remaining_qty == order.qty
                    &&& after.order_of(order.id).initial_qty == order.qty
                }
                &&& self.loc().contains_key(order.id) ==> after.loc() == self.loc()
                &&& !self.loc().contains_key(order.id) ==> {
                    let p = order.order_type->SystemLevel_0;
                    &&& after.at(s) == with_order(self.at(s), p.units, after.at(s)[p.units].last())
                    &&& after.loc() == self.loc().insert(order.id, (s, p))
                }
            }
            &&& (self.is_uncrossed() && !(order.order_type is SystemLevel && self.crosses(
                s,
                order.order_type->SystemLevel_0,
            ))) ==> after.is_uncrossed()
        }
    }

    /// Submits an order: a fill-or-kill order that cannot fill is cancelled
    /// untouched; otherwise the order takes liquidity from the other side, best
    /// price first and oldest first within a price, as far as its type allows
    /// (a system-level order takes none). A limit remainder rests at its price;
    /// a system-level order rests or merges into the order with its id; market,
    /// IOC and FOK remainders are dropped. Invalid requests are cancelled
    /// without touching the book.
    #[verifier::rlimit(100)]
    pub fn add_order(&mut self, order: OrderRequest) -> (r: (OrderResult, Vec<TradeExecution>))
        requires
            old(self).wf(),
            valid_request(order) ==> old(self).admissible(order),
        ensures
            final(self).wf(),
            old(self).place_outcome(order, r, *final(self)),

    {
        let mut executions: Vec<TradeExecution> = Vec::new();
        if !is_valid_request(&order) {
            return (OrderResult::cancelled(TradeOrder::from_request(order)), executions);
        }
        if let OrderType::FOK(price) = order.order_type {
            let avail = match order.side {
                Side::Bid => self.asks.get_available_quantity(price),
                Side::Ask => self.bids.get_available_quantity(price),
            };
            if avail.units < order.qty.units {
                return (OrderResult::from_order(TradeOrder::from_request(order)), executions);
            }
        }
        let ghost s0 = *self;
        let ghost s = order.side;
        let ghost o = s.spec_opposite();
        let mut removed: Vec<Notification> = Vec::new();
        let mut t = TradeOrder::from_request(order);
        match order.order_type {
            OrderType::SystemLevel(_) => {
                proof {
                    assert(self.at(o).dom().subset_of(s0.at(o).dom()));
                    assert(self.loc().submap_of(s0.loc()));
                    assert(executed_qty(executions@) == 0);
                }
            },
            _ => {
                executions = self.sweep(&mut t, order.order_type.price(), &mut removed);
            },
        }
        proof {
            if order.order_type is FOK && t.remaining_qty.val() > 0 {
                lemma_available_none(self.at(o), o, order.order_type->FOK_0.units);
            }
            if !(order.order_type is SystemLevel) {
                let h = if o == Side::Ask { self.asks } else { self.bids };
                assert(h.levels() == self.at(o) && h.s == o && h.wf());
                s0.lemma_levels_ok();
                match order.order_type.spec_price() {
                    Some(l) => {
                        lemma_available_nonneg(h, l.units);
                        if t.remaining_qty.val() > 0 {
                            lemma_available_none(self.at(o), o, l.units);
                        }
                    },
                    None => {
                        lemma_available_nonneg(h, 0);
                        if t.remaining_qty.val() > 0 {
                            assert(!(exists|k: i128| self.at(o).dom().contains(k)));
                        }
                    },
                }
                assert forall|i: int| 0 <= i < executions@.len() implies level_has(
                    s0.at(o)[(#[trigger] executions@[i]).price.units],
                    executions@[i].maker_order_id,
                ) by {
                    assert(s0.loc().contains_key(executions@[i].maker_order_id));
                }
            }
        }
        let mut ev = trade_events(&executions);
        let ghost tr = ev@;
        let ghost rm = removed@;
        proof {
            assert(removed@.skip(0) =~= removed@);
        }
        ev.append(&mut removed);
        self.events.append(&mut ev);
        let ghost mid = *self;
        let result = OrderResult::of_order(&t);
        proof {
            t.lemma_wf_bounds();
        }
        let ghost tt = t;
        match order.order_type {
            OrderType::Limit(l) => {
                if t.remaining_qty.is_positive() {
                    proof {
                        assert(!s0.loc().contains_key(order.id));
                        assert(!mid.loc().contains_key(order.id));
                        t.lemma_wf_bounds();
                    }
                    self.add_limit_order(order.side, l, t);
                    self.events.push(Notification::OrderAdded { order_id: order.id, price: l, qty: result.remaining_qty, side: order.side });
                    proof {
                        assert(self.at(s)[l.units].last() == tt);
                        if s0.is_uncrossed() {
                            assert forall|x: i128, y: i128| #[trigger] self.ask_levels().contains_key(x) && #[trigger] self.bid_levels().contains_key(y) implies y < x by {
                                if s == Side::Bid {
                                    assert(mid.at(o).contains_key(x));
                                    if y != l.units {
                                        assert(s0.bid_levels().contains_key(y));
                                        assert(s0.ask_levels().contains_key(x));
                                    }
                                } else {
                                    assert(mid.at(o).contains_key(y));
                                    if x != l.units {
                                        assert(s0.ask_levels().contains_key(x));
                                        assert(s0.bid_levels().contains_key(y));
                                    }
                                }
                            }
                        }
                    }
                } else {
                    proof {
                        assert(self.loc().submap_of(s0.loc()));
                    }
                }
            },
            OrderType::SystemLevel(l) => {
                let fresh = self.get_order(order.id).is_none();
                self.add_system_order(order.side, l, t);
                if fresh {
                    self.events.push(Notification::OrderAdded { order_id: order.id, price: l, qty: result.remaining_qty, side: order.side });
                }
                proof {
                    self.lemma_levels_ok();
                    if !s0.loc().contains_key(order.id) {
                        let lv = self.at(s)[l.units];
                        assert(lv.last() == tt);
                        assert(self.loc()[order.id] == (s, l));
                        let k = index_of(lv, order.id);
                        assert(level_ok(lv, s));
                        if k != lv.len() - 1 {
                            assert(lv[k].id != lv[lv.len() - 1].id);
                        }
                    } else {
                        let (ls, lp) = s0.loc()[order.id];
                        let l0 = s0.at(s)[lp.units];
                        let i = index_of(l0, order.id);
                        let n = self.at(s)[lp.units];
                        assert(self.loc()[order.id] == (ls, lp));
                        assert(level_ok(n, s));
                        let k = index_of(n, order.id);
                        if k != i {
                            if k < i {
                                assert(n[k].id != n[i].id);
                            } else {
                                assert(n[i].id != n[k].id);
                            }
                        }
                    }
                    if s0.is_uncrossed() && !s0.crosses(s, l) {
                        assert forall|x: i128, y: i128| #[trigger] self.ask_levels().contains_key(x) && #[trigger] self.bid_levels().contains_key(y) implies y < x by {
                            if s == Side::Bid {
                                assert(s0.at(o).contains_key(x));
                                if y != l.units {
                                    assert(s0.bid_levels().contains_key(y));
                                }
                            } else {
                                assert(s0.at(o).contains_key(y));
                                if x != l.units {
                                    assert(s0.ask_levels().contains_key(x));
                                }
                            }
                        }
                    }
                }
            },
            _ => {},
        }
        proof {
            let e0 = s0.events@;
            let new = self.events@.skip(e0.len() as int);
            let n = executions@.len();
            let m = rm.len();
            assert(self.events@.take(e0.len() as int) =~= e0);
            if s0.rests_new(order, result) {
                assert(new =~= tr + rm + seq![new.last()]);
            } else {
                assert(new =~= tr + rm);
            }
            assert(new.subrange(n as int, (n + m) as int) =~= rm);
            assert forall|k: int| 0 <= k < rm.len() implies match #[trigger] rm[k] {
                Notification::OrderRemoved { order_id, .. } => s0.loc().contains_key(order_id) && !self.loc().contains_key(order_id),
                _ => false,
            } by {
                assert(rm.skip(0) =~= rm);
                assert(rm[k] == rm.skip(0)[k]);
                match rm[k] {
                    Notification::OrderRemoved { order_id, .. } => {
                        assert(!mid.loc().contains_key(order_id));
                        if order_id == order.id {
                            assert(s0.loc().contains_key(order_id));
                        }
                    },
                    _ => {},
                }
            }
            assert forall|i: int| 0 <= i < n implies #[trigger] new[i] == Notification::TradeExecuted(executions@[i]) by {
                assert(new[i] == tr[i]);
            }
        }
        proof {
            if s0.is_uncrossed() && !(order.order_type is SystemLevel) && !(order.order_type is Limit && tt.remaining_qty.val() > 0) {
                assert forall|x: i128, y: i128| #[trigger] self.ask_levels().contains_key(x) && #[trigger] self.bid_levels().contains_key(y) implies y < x by {
                    assert(s0.ask_levels().contains_key(x));
                    assert(s0.bid_levels().contains_key(y));
                }
            }
        }
        (result, executions)
    }

    /// What deleting `order_id` from this book does, giving `r` and leaving
    /// `after`: see `delete_order`.
    pub open spec fn delete_outcome(self, order_id: OrderId, r: Option<OrderResult>, after: OrderBook) -> bool {
        &&& after.wf()
        &&& after.events == self.events
        &&& match r {
            Some(res) => {
                let (s, p) = self.loc()[order_id];
                let l = self.at(s)[p.units];
                &&& self.loc().contains_key(order_id)
                &&& res.describes(self.order_of(order_id))
                &&& res.status == OrderStatus::Cancelled
                &&& after.loc() == self.loc().remove(order_id)
                &&& after.at(s) == without(self.at(s), p.units, index_of(l, order_id))
                &&& after.at(s.spec_opposite()) == self.at(s.spec_opposite())
                &&& volume(after.at(s)) == volume(self.at(s)) - self.order_of(order_id).remaining_qty.val()
            },
            None => {
                &&& !self.loc().contains_key(order_id)
                &&& after.loc() == self.loc()
                &&& after.ask_levels() == self.ask_levels()
                &&& after.bid_levels() == self.bid_levels()
            },
        }
    }

    /// Removes the order `order_id` from the book and reports it cancelled,
    /// with the fills it collected while resting. Unknown id: absent, and
    /// nothing changes.
    pub fn delete_order(&mut self, order_id: OrderId) -> (r: Option<OrderResult>)
        requires
            old(self).wf(),
        ensures
            final(self).wf(),
            old(self).is_uncrossed() ==> final(self).is_uncrossed(),
            old(self).delete_outcome(order_id, r, *final(self)),

    {
        let ghost a = self.ask_levels();
        let ghost b = self.bid_levels();
        let ghost loc = self.loc();
        proof {
            self.lemma_levels_ok();
        }
        let (side, price) = match self.order_loc.remove(&order_id) {
            Some(x) => x,
            None => {
                proof {
                    assert(self.loc() =~= loc);
                }
                return None;
            },
        };
        proof {
            let m = side_levels(a, b, side);
            let l = m[price.units];
            let i = index_of(l, order_id);
            assert(loc.contains_key(order_id));
            assert(m.contains_key(price.units) && level_has(l, order_id));
            assert(l[i].id == order_id);
            lemma_located_remove(a, b, loc, side, price.units, i);
            assert(loc.remove(order_id).dom() =~= loc.dom().remove(order_id));
        }
        let removed = match side {
            Side::Ask => self.asks.remove_order(&price, order_id),
            Side::Bid => self.bids.remove_order(&price, order_id),
        };
        match removed {
            Some(o) => Some(OrderResult::cancelled(o)),
            None => None,
        }
    }

    /// Withdraws `qty` (at most what is left) from the resting order
    /// `order_id`. An order left with nothing is deleted and reported
    /// cancelled; otherwise its new state is reported. Unknown id: absent.
    pub fn cancel_order(&mut self, order_id: OrderId, qty: Quantity) -> (r: Option<OrderResult>)
        requires
            old(self).wf(),
            qty.val() >= 0,
        ensures
            final(self).wf(),
            final(self).events == old(self).events,
            old(self).is_uncrossed() ==> final(self).is_uncrossed(),
            match r {
                Some(res) => {
                    let (s, p) = old(self).loc()[order_id];
                    let l = old(self).at(s)[p.units];
                    let i = index_of(l, order_id);
                    let o = old(self).order_of(order_id);
                    &&& old(self).loc().contains_key(order_id)
                    &&& res.traid_id == order_id
                    &&& final(self).at(s.spec_opposite()) == old(self).at(s.spec_opposite())
                    &&& qty.val() >= o.remaining_qty.val() ==> {
                        &&& res.status == OrderStatus::Cancelled
                        &&& res.remaining_qty.val() == 0
                        &&& res.fills@ == o.fills@
                        &&& final(self).loc() == old(self).loc().remove(order_id)
                        &&& final(self).at(s) == without(old(self).at(s), p.units, i)
                    }
                    &&& qty.val() < o.remaining_qty.val() ==> {
                        let n = final(self).at(s)[p.units];
                        &&& final(self).loc() == old(self).loc()
                        &&& final(self).at(s) == old(self).at(s).insert(p.units, n)
                        &&& n == l.update(i, n[i])
                        &&& reduced(n[i], o, qty.val())
                        &&& res.describes(n[i])
                        &&& res.remaining_qty.val() == o.remaining_qty.val() - qty.val()
                        &&& res.status == status_of(res.remaining_qty, res.fills@, o.order_type)
                        &&& res.status != OrderStatus::Cancelled
                        &&& res.status != OrderStatus::Filled
                    }
                },
                None => {
                    &&& !old(self).loc().contains_key(order_id)
                    &&& final(self).loc() == old(self).loc()
                    &&& final(self).ask_levels() == old(self).ask_levels()
                    &&& final(self).bid_levels() == old(self).bid_levels()
                },
            },
    {
        let (side, price) = match self.order_loc.get(&order_id) {
            Some(x) => *x,
            None => return None,
        };
        let ghost a = self.ask_levels();
        let ghost b = self.bid_levels();
        let ghost loc = self.loc();
        proof {
            self.lemma_levels_ok();
        }
        let remaining = match side {
            Side::Ask => self.asks.get_order(price, order_id),
            Side::Bid => self.bids.get_order(price, order_id),
        }.unwrap().remaining_qty;
        if qty.units >= remaining.units {
            let mut res = self.delete_order(order_id).unwrap();
            res.remaining_qty = Fixed::zero();
            Some(res)
        } else {
            let res = match side {
                Side::Ask => self.asks.reduce_at(&price, order_id, qty),
                Side::Bid => self.bids.reduce_at(&price, order_id, qty),
            };
            proof {
                let m = side_levels(a, b, side);
                let l = m[price.units];
                let i = index_of(l, order_id);
                let n = self.at(side)[price.units];
                lemma_located_replace(a, b, loc, side, price.units, 0, n);
                assert(l.take(0).map_values(|o: TradeOrder| o.id).to_set() =~= Set::<OrderId>::empty());
                assert(loc.remove_keys(Set::<OrderId>::empty()) =~= loc);
                assert(set_level(m, price.units, n) == m.insert(price.units, n));
                assert forall|k: int| 0 <= k < n.len() implies (#[trigger] n[k]).id == m[price.units][0 + k].id by {
                    if k != i {
                        assert(n[k] == l[k]);
                    }
                }
                assert(self.at(side).dom() =~= m.dom());
                assert(level_ok(l, side));
                assert(crate::book::order_rests(l[i], side));
            }
            Some(res)
        }
    }

    /// The resting order `order_id`.
    pub fn get_order(&self, order_id: OrderId) -> (r: Option<&TradeOrder>)
        requires
            self.wf(),
        ensures
            match r {
                Some(o) => self.loc().contains_key(order_id) && *o == self.order_of(order_id),
                None => !self.loc().contains_key(order_id),
            },
    {
        let (side, price) = match self.order_loc.get(&order_id) {
            Some(x) => *x,
            None => return None,
        };
        match side {
            Side::Ask => self.asks.get_order(price, order_id),
            Side::Bid => self.bids.get_order(price, order_id),
        }
    }

    /// The best bid: the highest bid price.
    pub fn best_bid(&self) -> (r: Option<Price>)
        requires
            self.wf(),
        ensures
            match r {
                Some(p) => self.bids.is_best(p.units),
                None => self.bid_levels().dom().is_empty(),
            },
    {
        self.bids.best_price()
    }

    /// The best ask: the lowest ask price.
    pub fn best_ask(&self) -> (r: Option<Price>)
        requires
            self.wf(),
        ensures
            match r {
                Some(p) => self.asks.is_best(p.units),
                None => self.ask_levels().dom().is_empty(),
            },
    {
        self.asks.best_price()
    }

    /// The best bid and the best ask.
    pub fn best_prices(&self) -> (r: (Option<Price>, Option<Price>))
        requires
            self.wf(),
        ensures
            match r.0 {
                Some(p) => self.bids.is_best(p.units),
                None => self.bid_levels().dom().is_empty(),
            },
            match r.1 {
                Some(p) => self.asks.is_best(p.units),
                None => self.ask_levels().dom().is_empty(),
            },
    {
        (self.bids.best_price(), self.asks.best_price())
    }

    /// `r` is the spread: best ask minus best bid when both exist and the ask
    /// is above the bid, else absent.
    pub open spec fn is_spread(self, r: Option<Price>) -> bool {
        match r {
            Some(d) => exists|x: i128, y: i128| {
                &&& #[trigger] self.asks.is_best(x)
                &&& #[trigger] self.bids.is_best(y)
                &&& x > y
                &&& d.val() == x - y
            },
            None => self.ask_levels().dom().is_empty() || self.bid_levels().dom().is_empty() || forall|
                x: i128,
                y: i128,
            | #[trigger] self.asks.is_best(x) && #[trigger] self.bids.is_best(y) ==> x <= y,
        }
    }

    /// `st` lists the levels of both sides with their volumes, highest price
    /// first on each side.
    pub open spec fn is_state(self, st: OrderBookState) -> bool {
        &&& prices_best_first(Side::Bid, self.ask_levels(), st.asks@.map_values(|x: (Price, Quantity)| x.0))
        &&& forall|i: int| 0 <= i < st.asks@.len() ==> (#[trigger] st.asks@[i]).1.val() == level_volume(self.ask_levels()[st.asks@[i].0.units])
        &&& prices_best_first(Side::Bid, self.bid_levels(), st.bids@.map_values(|x: (Price, Quantity)| x.0))
        &&& forall|i: int| 0 <= i < st.bids@.len() ==> (#[trigger] st.bids@[i]).1.val() == level_volume(self.bid_levels()[st.bids@[i].0.units])
    }

    /// Best ask minus best bid, when both exist and the ask is above the bid.
    pub fn spread(&self) -> (r: Option<Price>)
        requires
            self.wf(),
        ensures
            self.is_spread(r),
    {
        match (self.asks.best_price(), self.bids.best_price()) {
            (Some(ask), Some(bid)) => {
                if ask.units > bid.units {
                    Some(Fixed::from_units(ask.units - bid.units))
                } else {
                    proof {
                        assert forall|x: i128, y: i128| #[trigger] self.asks.is_best(x) && #[trigger] self.bids.is_best(y) implies x <= y by {
                            assert(x <= ask.units && ask.units <= x);
                            assert(y <= bid.units && bid.units <= y);
                        }
                    }
                    None
                }
            },
            _ => None,
        }
    }

    /// Number of price levels: asks, then bids.
    pub fn get_depth(&self) -> (r: (usize, usize))
        requires
            self.wf(),
        ensures
            r.0 == self.depth().0,
            r.1 == self.depth().1,
    {
        (self.asks.get_depth(), self.bids.get_depth())
    }

    /// The levels of both sides with their quantities (see `OrderBookState`).
    pub fn get_order_book_state(&self) -> (r: OrderBookState)
        requires
            self.wf(),
        ensures
            self.is_state(r),
    {
        let asc = self.asks.get_levels();
        let ghost ps = asc@.map_values(|x: (Price, Quantity)| x.0);
        let n = asc.len();
        let mut asks: Vec<(Price, Quantity)> = Vec::new();
        let mut i: usize = 0;
        while i < n
            invariant
                n == asc@.len(),
                i <= n,
                asks@.len() == i,
                forall|k: int| 0 <= k < i ==> #[trigger] asks@[k] == asc@[n - 1 - k],
            decreases n - i,
        {
            asks.push(asc[n - 1 - i]);
            i += 1;
        }
        proof {
            let qs = asks@.map_values(|x: (Price, Quantity)| x.0);
            let m = self.ask_levels();
            assert forall|k: int| 0 <= k < qs.len() implies qs[k] == ps[n - 1 - k] by {
                assert(asks@[k] == asc@[n - 1 - k]);
            }
            assert forall|p: i128| #[trigger] m.contains_key(p) implies exists|k: int| 0 <= k < qs.len() && (#[trigger] qs[k]).units == p by {
                let j = choose|j: int| 0 <= j < ps.len() && (#[trigger] ps[j]).units == p;
                assert(qs[n - 1 - j] == ps[j]);
            }
            assert forall|k: int, j: int| #![trigger qs[k], qs[j]] 0 <= k < j < qs.len() implies qs[k].units > qs[j].units by {
                assert(qs[k] == ps[n - 1 - k] && qs[j] == ps[n - 1 - j]);
                assert(ps[n - 1 - j].units < ps[n - 1 - k].units);
            }
            assert forall|k: int| 0 <= k < qs.len() implies m.contains_key(#[trigger] qs[k].units) by {
                assert(qs[k] == ps[n - 1 - k]);
            }
            assert forall|k: int| 0 <= k < asks@.len() implies (#[trigger] asks@[k]).1.val() == level_volume(m[asks@[k].0.units]) by {
                assert(asks@[k] == asc@[n - 1 - k]);
            }
        }
        OrderBookState { asks, bids: self.bids.get_levels() }
    }

    /// The orders at `price` on side `side`, oldest first.
    pub fn get_orders_at_price(&self, side: Side, price: Price) -> (r: Option<Vec<&TradeOrder>>)
        ensures
            match r {
                Some(v) => self.at(side).contains_key(price.units) && v@.map_values(|o: &TradeOrder| *o) == self.at(side)[price.units],
                None => !self.at(side).contains_key(price.units),
            },
    {
        match side {
            Side::Ask => self.asks.get_orders_at_price(price),
            Side::Bid => self.bids.get_orders_at_price(price),
        }
    }

    /// Remaining quantity resting on both sides.
    pub fn get_total_volume(&self) -> (r: Quantity)
        requires
            self.wf(),
        ensures
            r.val() == self.total_volume(),
    {
        let a = self.asks.get_total_volume();
        let b = self.bids.get_total_volume();
        proof {
            self.asks.lemma_volume_nonneg();
            self.bids.lemma_volume_nonneg();
        }
        a.plus(b)
    }

    /// The price range of each side, asks first, when both sides have levels.
    pub fn get_price_range(&self) -> (r: Option<(Price, Price)>)
        requires
            self.wf(),
        ensures
            match r {
                Some((a, b)) => is_range(self.ask_levels(), a.val()) && is_range(self.bid_levels(), b.val()),
                None => self.ask_levels().dom().is_empty() || self.bid_levels().dom().is_empty(),
            },
    {
        let a = match self.asks.get_price_range() {
            Some(x) => x,
            None => return None,
        };
        let b = match self.bids.get_price_range() {
            Some(x) => x,
            None => return None,
        };
        Some((a, b))
    }

    /// Total remaining quantity at `price` on side `side`.
    pub fn get_volume_at_price(&self, side: &Side, price: &Price) -> (r: Option<Quantity>)
        requires
            self.wf(),
        ensures
            match r {
                Some(q) => self.at(*side).contains_key(price.units) && q.val() == level_volume(self.at(*side)[price.units]),
                None => !self.at(*side).contains_key(price.units),
            },
    {
        match side {
            Side::Ask => self.asks.get_total_qty(price),
            Side::Bid => self.bids.get_total_qty(price),
        }
    }

    /// Number of resting orders.
    pub fn get_order_count(&self) -> (r: usize)
        requires
            self.wf(),
        ensures
            r == order_count(self.ask_levels()) + order_count(self.bid_levels()),
            r == self.loc().dom().len(),
    {
        self.order_loc.len()
    }

    pub fn is_empty(&self) -> (r: bool)
        requires
            self.wf(),
        ensures
            r == (self.ask_levels().dom().is_empty() && self.bid_levels().dom().is_empty()),
    {
        self.asks.is_empty() && self.bids.is_empty()
    }

    /// Hands out the pending events, oldest first, and forgets them.
    pub fn take_events(&mut self) -> (r: Vec<Notification>)
        requires
            old(self).wf(),
        ensures
            final(self).wf(),
            r@ == old(self).events@,
            final(self).events@.len() == 0,
            final(self).ask_levels() == old(self).ask_levels(),
            final(self).bid_levels() == old(self).bid_levels(),
            final(self).loc() == old(self).loc(),
    {
        let mut out: Vec<Notification> = Vec::new();
        std::mem::swap(&mut out, &mut self.events);
        out
    }

    /// Removes every order.
    pub fn clear(&mut self)
        requires
            old(self).wf(),
        ensures
            final(self).wf(),
            final(self).ask_levels() == Map::<i128, Seq<TradeOrder>>::empty(),
            final(self).bid_levels() == Map::<i128, Seq<TradeOrder>>::empty(),
            final(self).loc() == Map::<OrderId, (Side, Price)>::empty(),
    {
        self.asks.clear();
        self.bids.clear();
        self.order_loc.clear();
        proof {
            let e = Map::<i128, Seq<TradeOrder>>::empty();
            assert(!(exists|k: i128| e.dom().contains(k)));
            assert(order_count(e) == 0);
        }
    }
}

impl Default for OrderBook {
    fn default() -> (r: Self)
        ensures
            r.wf(),
            r.ask_levels() == Map::<i128, Seq<TradeOrder>>::empty(),
            r.bid_levels() == Map::<i128, Seq<TradeOrder>>::empty(),
            r.loc() == Map::<OrderId, (Side, Price)>::empty(),
    {
        OrderBook::new()
    }
}

} // verus!
