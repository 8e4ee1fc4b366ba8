use vstd::prelude::*;
use vstd::std_specs::btree::increasing_seq;
use vstd::std_specs::cmp::OrdSpec;
use vstd::std_specs::iter::IteratorSpec;

use std::collections::BTreeSet;
use std::collections::VecDeque;

use crate::fixed::{Fixed, MAX_UNITS};
use crate::orders::{status_of, OrderResult, TradeExecution, TradeOrder};
use crate::price_levels::{PriceLevel, SparseVec};
use crate::sums::{
    lemma_level_volume_front, lemma_level_volume_nonneg, lemma_level_volume_push, lemma_map_sum_insert,
    keys_sum, lemma_keys_sum, lemma_map_sum_nonneg, map_sum, lemma_map_sum_remove, lemma_map_sum_term, len_term, level_volume, order_count, volume, volume_term,
};
use crate::types::{OrderId, Price, Quantity, Side};

verus! {

broadcast use vstd::std_specs::btree::group_btree_axioms;

/// An order may rest on side `s`: consistent, on that side, with quantity
/// left, and of a type that rests (limit or system-level).
pub open spec fn order_rests(o: TradeOrder, s: Side) -> bool {
    &&& o.wf()
    &&& o.side == s
    &&& o.remaining_qty.val() > 0
    &&& (o.order_type is Limit || o.order_type is SystemLevel)
}

/// A level of side `s`: non-empty, every order may rest there, ids distinct.
pub open spec fn level_ok(l: Seq<TradeOrder>, s: Side) -> bool {
    &&& l.len() > 0
    &&& forall|i: int| 0 <= i < l.len() ==> #[trigger] order_rests(l[i], s)
    &&& ids_distinct(l)
}

pub open spec fn ids_distinct(l: Seq<TradeOrder>) -> bool {
    forall|i: int, j: int| #![trigger l[i].id, l[j].id] 0 <= i < j < l.len() ==> l[i].id != l[j].id
}

/// The level holds an order with this id.
pub open spec fn level_has(l: Seq<TradeOrder>, id: OrderId) -> bool {
    exists|i: int| 0 <= i < l.len() && #[trigger] l[i].id == id
}

/// Position of the order with this id in a level.
pub open spec fn index_of(l: Seq<TradeOrder>, id: OrderId) -> int {
    choose|i: int| 0 <= i < l.len() && #[trigger] l[i].id == id
}

/// The price map after the order at position `i` of the level at `p` leaves;
/// a level left empty is dropped.
pub open spec fn without(m: Map<i128, Seq<TradeOrder>>, p: i128, i: int) -> Map<i128, Seq<TradeOrder>> {
    let l = m[p].remove(i);
    if l.len() == 0 {
        m.remove(p)
    } else {
        m.insert(p, l)
    }
}

/// The price map after `o` joins the back of the level at `p`.
pub open spec fn with_order(m: Map<i128, Seq<TradeOrder>>, p: i128, o: TradeOrder) -> Map<i128, Seq<TradeOrder>> {
    if m.contains_key(p) {
        m.insert(p, m[p].push(o))
    } else {
        m.insert(p, seq![o])
    }
}

pub proof fn lemma_level_volume_concat(a: Seq<TradeOrder>, b: Seq<TradeOrder>)
    ensures
        level_volume(a + b) == level_volume(a) + level_volume(b),
    decreases b.len(),
{
    if b.len() == 0 {
        assert(a + b =~= a);
    } else {
        lemma_level_volume_concat(a, b.drop_last());
        assert((a + b).drop_last() =~= a + b.drop_last());
    }
}

pub proof fn lemma_level_volume_remove(l: Seq<TradeOrder>, i: int)
    requires
        0 <= i < l.len(),
    ensures
        level_volume(l.remove(i)) == level_volume(l) - l[i].remaining_qty.val(),
{
    let a = l.take(i);
    let b = l.skip(i + 1);
    lemma_level_volume_concat(a, b);
    assert(l.remove(i) =~= a + b);
    lemma_level_volume_concat(a.push(l[i]), b);
    assert(l =~= a.push(l[i]) + b);
    lemma_level_volume_push(a, l[i]);
}

/// Total quantity of a sequence of executions.
pub open spec fn executed_qty(s: Seq<TradeExecution>) -> int
    decreases s.len(),
{
    if s.len() == 0 {
        0
    } else {
        executed_qty(s.drop_last()) + s.last().qty.val()
    }
}

pub proof fn lemma_executed_qty_push(s: Seq<TradeExecution>, e: TradeExecution)
    ensures
        executed_qty(s.push(e)) == executed_qty(s) + e.qty.val(),
{
    assert(s.push(e).drop_last() =~= s);
}

pub proof fn lemma_executed_qty_append(a: Seq<TradeExecution>, b: Seq<TradeExecution>)
    ensures
        executed_qty(a + b) == executed_qty(a) + executed_qty(b),
    decreases b.len(),
{
    if b.len() == 0 {
        assert(a + b =~= a);
    } else {
        lemma_executed_qty_append(a, b.drop_last());
        assert((a + b).drop_last() =~= a + b.drop_last());
    }
}

pub proof fn lemma_executed_qty_nonneg(s: Seq<TradeExecution>)
    requires
        forall|i: int| 0 <= i < s.len() ==> #[trigger] s[i].qty.val() > 0,
    ensures
        executed_qty(s) >= 0,
    decreases s.len(),
{
    if s.len() > 0 {
        lemma_executed_qty_nonneg(s.drop_last());
    }
}

/// `after` is `before` after one more fill of `q`.
pub open spec fn reduced_by(after: TradeOrder, before: TradeOrder, q: int) -> bool {
    &&& after.id == before.id
    &&& after.side == before.side
    &&& after.order_type == before.order_type
    &&& after.initial_qty == before.initial_qty
    &&& after.cancelled_qty == before.cancelled_qty
    &&& after.remaining_qty.val() == before.remaining_qty.val() - q
    &&& after.fills@.drop_last() == before.fills@
    &&& after.fills@.len() == before.fills@.len() + 1
    &&& after.fills@.last().qty.val() == q
    &&& after.wf()
}

/// The executions `e` consumed level `l0` front to back at `price`, leaving
/// `l1`: every maker but the last was used up; the last one, if not used up,
/// stays at the head with its remainder.
pub open spec fn matched(
    l0: Seq<TradeOrder>,
    e: Seq<TradeExecution>,
    l1: Seq<TradeOrder>,
    taker: OrderId,
    taker_side: Side,
    price: Price,
) -> bool {
    let n = e.len();
    &&& n <= l0.len()
    &&& forall|i: int| 0 <= i < n ==> {
        &&& (#[trigger] e[i]).maker_order_id == l0[i].id
        &&& e[i].taker_order_id == taker
        &&& e[i].price == price
        &&& e[i].take_side == taker_side
        &&& 0 < e[i].qty.val() <= l0[i].remaining_qty.val()
        &&& i + 1 < n ==> e[i].qty.val() == l0[i].remaining_qty.val()
    }
    &&& if n > 0 && e[n - 1].qty.val() < l0[n - 1].remaining_qty.val() {
        &&& l1.len() == l0.len() - n + 1
        &&& reduced_by(l1[0], l0[n - 1], e[n - 1].qty.val())
        &&& l1.skip(1) == l0.skip(n as int)
    } else {
        l1 == l0.skip(n as int)
    }
}

/// A level left by a match is again a valid level, unless it is empty.
pub proof fn lemma_matched_level_ok(
    l0: Seq<TradeOrder>,
    e: Seq<TradeExecution>,
    l1: Seq<TradeOrder>,
    taker: OrderId,
    taker_side: Side,
    price: Price,
    s: Side,
)
    requires
        level_ok(l0, s),
        matched(l0, e, l1, taker, taker_side, price),
    ensures
        l1.len() > 0 ==> level_ok(l1, s),
{
    let k = e.len() as int;
    if k > 0 && e[k - 1].qty.val() < l0[k - 1].remaining_qty.val() {
        assert forall|a: int| 0 <= a < l1.len() implies #[trigger] order_rests(l1[a], s) by {
            if a > 0 {
                assert(l1[a] == l1.skip(1)[a - 1]);
                assert(l0.skip(k)[a - 1] == l0[k + a - 1]);
                assert(order_rests(l0[k + a - 1], s));
            } else {
                assert(order_rests(l0[k - 1], s));
            }
        }
        assert forall|a: int, b: int| #![trigger l1[a].id, l1[b].id] 0 <= a < b < l1.len() implies l1[a].id != l1[b].id by {
            assert(l1[b] == l1.skip(1)[b - 1]);
            assert(l0.skip(k)[b - 1] == l0[k + b - 1]);
            if a > 0 {
                assert(l1[a] == l1.skip(1)[a - 1]);
                assert(l0.skip(k)[a - 1] == l0[k + a - 1]);
            }
            assert(l0[k + a - 1].id != l0[k + b - 1].id);
        }
    } else {
        assert forall|a: int| 0 <= a < l1.len() implies #[trigger] order_rests(l1[a], s) by {
            assert(l1[a] == l0[k + a]);
            assert(order_rests(l0[k + a], s));
        }
        assert forall|a: int, b: int| #![trigger l1[a].id, l1[b].id] 0 <= a < b < l1.len() implies l1[a].id != l1[b].id by {
            assert(l1[a] == l0[k + a] && l1[b] == l0[k + b]);
            assert(l0[k + a].id != l0[k + b].id);
        }
    }
}

/// The level at `p` of a price map, empty when there is none.
pub open spec fn level_at(m: Map<i128, Seq<TradeOrder>>, p: i128) -> Seq<TradeOrder> {
    if m.contains_key(p) {
        m[p]
    } else {
        Seq::empty()
    }
}

/// The price map with the level at `p` set to `l`, dropped when `l` is empty.
pub open spec fn set_level(m: Map<i128, Seq<TradeOrder>>, p: i128, l: Seq<TradeOrder>) -> Map<i128, Seq<TradeOrder>> {
    if l.len() == 0 {
        m.remove(p)
    } else {
        m.insert(p, l)
    }
}

/// `ps` lists the prices of `m` once each, best first for side `s`.
pub open spec fn prices_best_first(s: Side, m: Map<i128, Seq<TradeOrder>>, ps: Seq<Price>) -> bool {
    &&& ps.len() == m.dom().len()
    &&& forall|i: int| 0 <= i < ps.len() ==> m.contains_key(#[trigger] ps[i].units)
    &&& forall|p: i128| #[trigger] m.contains_key(p) ==> exists|i: int| 0 <= i < ps.len() && (#[trigger] ps[i]).units == p
    &&& forall|i: int, j: int| #![trigger ps[i], ps[j]] 0 <= i < j < ps.len() ==> match s {
        Side::Ask => ps[i].units < ps[j].units,
        Side::Bid => ps[i].units > ps[j].units,
    }
}

/// Price `p` is at `target` or better for a taker against side `s`: at most
/// `target` among asks, at least `target` among bids.
pub open spec fn within(s: Side, p: i128, target: i128) -> bool {
    match s {
        Side::Ask => p <= target,
        Side::Bid => p >= target,
    }
}

/// Quantity resting on side `s` at `target` or better.
pub open spec fn available(m: Map<i128, Seq<TradeOrder>>, s: Side, target: i128) -> int {
    volume(m.restrict(Set::new(|p: i128| within(s, p, target))))
}

pub proof fn lemma_keys_sum_prefix(m: Map<i128, Seq<TradeOrder>>, f: spec_fn(Seq<TradeOrder>) -> int, ks: Seq<i128>, i: int)
    requires
        0 <= i <= ks.len(),
        forall|j: int| 0 <= j < ks.len() ==> f(m[#[trigger] ks[j]]) >= 0,
    ensures
        0 <= keys_sum(m, f, ks.take(i)) <= keys_sum(m, f, ks),
    decreases ks.len(),
{
    if ks.len() > 0 {
        if i == ks.len() {
            assert(ks.take(i) =~= ks);
            lemma_keys_sum_prefix(m, f, ks.drop_last(), i - 1);
            assert(ks.drop_last().take(i - 1) =~= ks.drop_last());
        } else {
            lemma_keys_sum_prefix(m, f, ks.drop_last(), i);
            assert(ks.drop_last().take(i) =~= ks.take(i));
            lemma_keys_sum_prefix(m, f, ks.drop_last(), ks.len() - 1);
            assert(ks.drop_last().take(ks.len() - 1) =~= ks.drop_last());
        }
    } else {
        assert(ks.take(i) =~= ks);
    }
}

/// `after` is `before` with `other` merged in.
pub open spec fn merged(after: TradeOrder, before: TradeOrder, other: TradeOrder) -> bool {
    &&& after.id == before.id
    &&& after.side == before.side
    &&& after.order_type == before.order_type
    &&& after.remaining_qty.val() == before.remaining_qty.val() + other.remaining_qty.val()
    &&& after.initial_qty.val() == before.initial_qty.val() + other.initial_qty.val()
    &&& after.cancelled_qty.val() == before.cancelled_qty.val() + other.cancelled_qty.val()
    &&& after.fills@ == before.fills@ + other.fills@
}

/// `after` is `before` with `qty` withdrawn by partial cancellation.
pub open spec fn reduced(after: TradeOrder, before: TradeOrder, qty: int) -> bool {
    &&& after.id == before.id
    &&& after.side == before.side
    &&& after.order_type == before.order_type
    &&& after.remaining_qty.val() == before.remaining_qty.val() - qty
    &&& after.initial_qty == before.initial_qty
    &&& after.cancelled_qty.val() == before.cancelled_qty.val() + qty
    &&& after.fills@ == before.fills@
}

/// `d` is the distance between the least and the greatest price of `m`.
pub open spec fn is_range(m: Map<i128, Seq<TradeOrder>>, d: int) -> bool {
    exists|lo: i128, hi: i128| {
        &&& #[trigger] m.contains_key(lo)
        &&& #[trigger] m.contains_key(hi)
        &&& forall|q: i128| #[trigger] m.contains_key(q) ==> lo <= q <= hi
        &&& d == hi - lo
    }
}

/// One side of a book: the levels by price and the ordered set of their prices.
pub struct HalfBook {
    pub s: Side,
    pub price_set: BTreeSet<i128>,
    pub price_levels: SparseVec,
}

impl HalfBook {
    /// The levels by price (in units), oldest order first.
    pub open spec fn levels(self) -> Map<i128, Seq<TradeOrder>> {
        self.price_levels@
    }

    pub open spec fn wf(self) -> bool {
        &&& self.price_set@ == self.levels().dom()
        &&& self.levels().dom().finite()
        &&& forall|p: i128| #[trigger] self.levels().contains_key(p) ==> level_ok(self.levels()[p], self.s)
        &&& volume(self.levels()) <= MAX_UNITS
        &&& forall|p: i128| #[trigger] self.levels().contains_key(p) ==> 0 < p <= MAX_UNITS
    }

    /// The best price: least for asks, greatest for bids.
    pub open spec fn is_best(self, p: i128) -> bool {
        &&& self.levels().contains_key(p)
        &&& forall|q: i128| #[trigger] self.levels().contains_key(q) ==> match self.s {
            Side::Ask => p <= q,
            Side::Bid => q <= p,
        }
    }

    pub proof fn lemma_volume_nonneg(self)
        requires
            self.wf(),
        ensures
            volume(self.levels()) >= 0,
            forall|p: i128| #[trigger] self.levels().contains_key(p) ==> 0 <= level_volume(self.levels()[p]) <= volume(self.levels()),
    {
        let m = self.levels();
        let f = volume_term();
        assert forall|k: i128| #[trigger] m.contains_key(k) implies f(m[k]) >= 0 by {
            assert(level_ok(m[k], self.s));
            assert forall|i: int| 0 <= i < m[k].len() implies #[trigger] m[k][i].remaining_qty.val() >= 0 by {
                assert(order_rests(m[k][i], self.s));
            }
            lemma_level_volume_nonneg(m[k]);
        }
        lemma_map_sum_nonneg(m, f);
        assert forall|p: i128| #[trigger] m.contains_key(p) implies 0 <= level_volume(m[p]) <= volume(m) by {
            lemma_map_sum_term(m, f, p);
        }
    }

    pub fn new(s: Side) -> (r: HalfBook)
        ensures
            r.wf(),
            r.s == s,
            r.levels() == Map::<i128, Seq<TradeOrder>>::empty(),
    {
        let r = HalfBook { s, price_set: BTreeSet::new(), price_levels: SparseVec::with_capacity(10_000) };
        assert(r.price_set@ =~= r.levels().dom());
        r
    }

    /// Appends `order` to the level at `price`, creating the level if absent.
    pub fn add_order(&mut self, price: Price, order: TradeOrder)
        requires
            old(self).wf(),
            order_rests(order, old(self).s),
            0 < price.units <= MAX_UNITS,
            !(old(self).levels().contains_key(price.units) && level_has(old(self).levels()[price.units], order.id)),
            volume(old(self).levels()) + order.remaining_qty.val() <= MAX_UNITS,
        ensures
            final(self).wf(),
            final(self).s == old(self).s,
            final(self).levels() == with_order(old(self).levels(), price.units, order),
            volume(final(self).levels()) == volume(old(self).levels()) + order.remaining_qty.val(),
            order_count(final(self).levels()) == order_count(old(self).levels()) + 1,
    {
        let p = price.units;
        let ghost m = self.levels();
        let ghost o = order;
        match self.price_levels.remove(p) {
            Some(level) => {
                let mut level = level;
                level.push_back(order);
                self.price_levels.insert(p, level);
                proof {
                    assert(m.remove(p).insert(p, m[p].push(o)) =~= m.insert(p, m[p].push(o)));
                    lemma_level_volume_push(m[p], o);
                    lemma_map_sum_insert(m, volume_term(), p, m[p].push(o));
                    lemma_map_sum_insert(m, len_term(), p, m[p].push(o));
                }
            },
            None => {
                let mut level: PriceLevel = VecDeque::new();
                level.push_back(order);
                self.price_set.insert(p);
                self.price_levels.insert(p, level);
                proof {
                    assert(m.remove(p) =~= m);
                    assert(seq![o] =~= Seq::<TradeOrder>::empty().push(o));
                    lemma_level_volume_push(Seq::<TradeOrder>::empty(), o);
                    lemma_map_sum_insert(m, volume_term(), p, seq![o]);
                    lemma_map_sum_insert(m, len_term(), p, seq![o]);
                }
            },
        }
        proof {
            let n = self.levels();
            assert(n == with_order(m, p, o));
            assert(self.price_set@ =~= n.dom());
            assert(n.dom().finite());
            assert(volume(n) == volume(m) + o.remaining_qty.val());
            assert forall|q: i128| #[trigger] n.contains_key(q) implies level_ok(n[q], self.s) by {
                if q == p {
                    let l = n[q];
                    if m.contains_key(p) {
                        assert(level_ok(m[p], self.s));
                        assert(l == m[p].push(o));
                        assert forall|i: int, j: int| #![trigger l[i].id, l[j].id] 0 <= i < j < l.len() implies l[i].id != l[j].id by {
                            if j == l.len() - 1 {
                                if l[i].id == o.id {
                                    assert(m[p][i].id == o.id);
                                }
                            } else {
                                assert(m[p][i].id == l[i].id && m[p][j].id == l[j].id);
                            }
                        }
                        assert forall|i: int| 0 <= i < l.len() implies #[trigger] order_rests(l[i], self.s) by {
                            if i < l.len() - 1 {
                                assert(l[i] == m[p][i]);
                            }
                        }
                    }
                }
            }
        }
    }

    /// Takes the order `order_id` out of the level at `price`; drops the level
    /// if it becomes empty. Absent order or level: nothing changes.
    pub fn remove_order(&mut self, price: &Price, order_id: OrderId) -> (r: Option<TradeOrder>)
        requires
            old(self).wf(),
        ensures
            final(self).wf(),
            final(self).s == old(self).s,
            match r {
                Some(o) => {
                    let l = old(self).levels()[price.units];
                    let i = index_of(l, order_id);
                    &&& old(self).levels().contains_key(price.units)
                    &&& level_has(l, order_id)
                    &&& o == l[i]
                    &&& final(self).levels() == without(old(self).levels(), price.units, i)
                    &&& volume(final(self).levels()) == volume(old(self).levels()) - o.remaining_qty.val()
                    &&& order_count(final(self).levels()) == order_count(old(self).levels()) - 1
                },
                None => {
                    &&& !(old(self).levels().contains_key(price.units) && level_has(
                        old(self).levels()[price.units],
                        order_id,
                    ))
                    &&& final(self).levels() == old(self).levels()
                },
            },
    {
        let p = price.units;
        let ghost m = self.levels();
        let mut level = match self.price_levels.remove(p) {
            Some(level) => level,
            None => {
                proof {
                    assert(m.remove(p) =~= m);
                }
                return None;
            },
        };
        let mut i: usize = 0;
        while i < level.len()
            invariant_except_break
                forall|j: int| 0 <= j < i ==> level@[j].id != order_id,
            invariant
                i <= level@.len(),
                level@ == m[p],
            ensures
                i < level@.len() ==> level@[i as int].id == order_id,
                i == level@.len() ==> forall|j: int| 0 <= j < i ==> level@[j].id != order_id,
            decreases level@.len() - i,
        {
            if level[i].id == order_id {
                break;
            }
            i += 1;
        }
        if i == level.len() {
            self.price_levels.insert(p, level);
            proof {
                assert(m.remove(p).insert(p, m[p]) =~= m);
            }
            return None;
        }
        let ghost l = m[p];
        proof {
            assert(level_ok(l, self.s));
            assert(index_of(l, order_id) == i) by {
                let k = index_of(l, order_id);
                assert(l[i as int].id == order_id);
                if k != i {
                    if k < i {
                        assert(l[k].id != l[i as int].id);
                    } else {
                        assert(l[i as int].id != l[k].id);
                    }
                }
            }
        }
        let o = level.remove(i).unwrap();
        proof {
            lemma_level_volume_remove(l, i as int);
            let f = volume_term();
            let g = len_term();
            lemma_map_sum_remove(m, f, p);
            lemma_map_sum_remove(m, g, p);
            lemma_map_sum_insert(m, f, p, l.remove(i as int));
            lemma_map_sum_insert(m, g, p, l.remove(i as int));
        }
        if level.len() == 0 {
            self.price_set.remove(&p);
        } else {
            self.price_levels.insert(p, level);
            proof {
                assert(m.remove(p).insert(p, l.remove(i as int)) =~= m.insert(p, l.remove(i as int)));
            }
        }
        proof {
            let n = self.levels();
            assert(n == without(m, p, i as int));
            assert(self.price_set@ =~= n.dom());
            assert(n.dom().finite());
            assert(order_rests(l[i as int], self.s));
            assert(volume(n) == volume(m) - o.remaining_qty.val());
            assert forall|q: i128| #[trigger] n.contains_key(q) implies level_ok(n[q], self.s) by {
                if q == p {
                    let nl = n[q];
                    assert(nl == l.remove(i as int));
                    assert forall|a: int, b: int| #![trigger nl[a].id, nl[b].id] 0 <= a < b < nl.len() implies nl[a].id != nl[b].id by {
                        let a2 = if a < i { a } else { a + 1 };
                        let b2 = if b < i { b } else { b + 1 };
                        assert(nl[a] == l[a2] && nl[b] == l[b2]);
                        assert(l[a2].id != l[b2].id);
                    }
                    assert forall|a: int| 0 <= a < nl.len() implies #[trigger] order_rests(nl[a], self.s) by {
                        let a2 = if a < i { a } else { a + 1 };
                        assert(nl[a] == l[a2]);
                    }
                }
            }
        }
        Some(o)
    }

    /// Matches `incoming` against the level at exactly `price`, oldest order
    /// first, until the incoming order or the level is used up. Trades are at
    /// `price`; the taker side is the other side. A maker left with quantity
    /// keeps its place at the head of the level.
    pub fn match_order(&mut self, incoming: &mut TradeOrder, price: Price) -> (execs: Vec<TradeExecution>)
        requires
            old(self).wf(),
            old(incoming).wf(),
        ensures
            final(self).wf(),
            final(self).s == old(self).s,
            final(incoming).wf(),
            final(incoming).id == old(incoming).id,
            final(incoming).side == old(incoming).side,
            final(incoming).order_type == old(incoming).order_type,
            final(incoming).initial_qty == old(incoming).initial_qty,
            final(incoming).cancelled_qty == old(incoming).cancelled_qty,
            final(incoming).remaining_qty.val() == old(incoming).remaining_qty.val() - executed_qty(execs@),
            final(incoming).fills@.len() == old(incoming).fills@.len() + execs@.len(),
            final(incoming).fills@.take(old(incoming).fills@.len() as int) == old(incoming).fills@,
            forall|k: int| 0 <= k < execs@.len() ==> {
                &&& final(incoming).fills@[old(incoming).fills@.len() + k].qty == (#[trigger] execs@[k]).qty
                &&& final(incoming).fills@[old(incoming).fills@.len() + k].price == price
                &&& final(incoming).fills@[old(incoming).fills@.len() + k].order_id == execs@[k].maker_order_id
            },
            execs@.len() == 0 ==> *final(incoming) == *old(incoming) && final(self).levels() == old(self).levels(),
            (old(incoming).remaining_qty.val() == 0 || !old(self).levels().contains_key(price.units)) ==> execs@.len()
                == 0,
            old(incoming).remaining_qty.val() > 0 && old(self).levels().contains_key(price.units) ==> executed_qty(execs@) > 0,
            forall|i: int| 0 <= i < execs@.len() ==> (#[trigger] execs@[i]).qty.val() > 0,
            ({
                let l0 = level_at(old(self).levels(), price.units);
                let l1 = level_at(final(self).levels(), price.units);
                &&& matched(l0, execs@, l1, old(incoming).id, old(self).s.spec_opposite(), price)
                &&& final(incoming).remaining_qty.val() == 0 || l1.len() == 0
                &&& final(self).levels() == set_level(old(self).levels(), price.units, l1)
                &&& level_volume(l1) == level_volume(l0) - executed_qty(execs@)
                &&& old(incoming).remaining_qty.val() + level_volume(l0) == final(incoming).remaining_qty.val()
                    + level_volume(l1) + 2 * executed_qty(execs@)
                &&& volume(final(self).levels()) == volume(old(self).levels()) - executed_qty(execs@)
                &&& order_count(final(self).levels()) == order_count(old(self).levels()) - l0.len() + l1.len()
            }),
    {
        let p = price.units;
        let ghost m = self.levels();
        let ghost in0 = *incoming;
        let mut executions: Vec<TradeExecution> = Vec::new();
        let mut level = match self.price_levels.remove(p) {
            Some(level) => level,
            None => {
                proof {
                    assert(m.remove(p) =~= m);
                    assert(set_level(m, p, Seq::empty()) =~= m);
                    assert(Seq::<TradeOrder>::empty().skip(0) =~= Seq::<TradeOrder>::empty());
                }
                return executions;
            },
        };
        let ghost l0 = m[p];
        let taker_side = self.s.opposite();
        proof {
            assert(level_ok(l0, self.s));
            assert(l0.skip(0) =~= l0);
        }
        loop
            invariant_except_break
                level@ == l0.skip(executions@.len() as int),
                forall|i: int| 0 <= i < executions@.len() ==> (#[trigger] executions@[i]).qty.val()
                    == l0[i].remaining_qty.val(),
            invariant
                self.levels() == m.remove(p),
                self.s == old(self).s,
                self.price_set == old(self).price_set,
                level_ok(l0, self.s),
                m.contains_key(p),
                l0 == m[p],
                taker_side == self.s.spec_opposite(),
                executions@.len() <= l0.len(),
                forall|i: int| 0 <= i < executions@.len() ==> {
                    &&& (#[trigger] executions@[i]).maker_order_id == l0[i].id
                    &&& executions@[i].taker_order_id == in0.id
                    &&& executions@[i].price == price
                    &&& executions@[i].take_side == taker_side
                    &&& 0 < executions@[i].qty.val() <= l0[i].remaining_qty.val()
                    &&& i + 1 < executions@.len() ==> executions@[i].qty.val()
                        == l0[i].remaining_qty.val()
                },
                incoming.wf(),
                incoming.id == in0.id,
                incoming.side == in0.side,
                incoming.order_type == in0.order_type,
                incoming.initial_qty == in0.initial_qty,
                incoming.cancelled_qty == in0.cancelled_qty,
                incoming.remaining_qty.val() == in0.remaining_qty.val() - executed_qty(executions@),
                level_volume(level@) == level_volume(l0) - executed_qty(executions@),
                executed_qty(executions@) >= 0,
                executions@.len() > 0 ==> executed_qty(executions@) > 0,
                incoming.fills@.len() == in0.fills@.len() + executions@.len(),
                incoming.fills@.take(in0.fills@.len() as int) == in0.fills@,
                forall|k: int| 0 <= k < executions@.len() ==> {
                    &&& incoming.fills@[in0.fills@.len() + k].qty == (#[trigger] executions@[k]).qty
                    &&& incoming.fills@[in0.fills@.len() + k].price == price
                    &&& incoming.fills@[in0.fills@.len() + k].order_id == executions@[k].maker_order_id
                },
                executions@.len() == 0 ==> *incoming == in0,
            ensures
                matched(l0, executions@, level@, in0.id, taker_side, price),
                incoming.remaining_qty.val() == 0 || level@.len() == 0,
            decreases level@.len(),
        {
            if level.len() == 0 || !incoming.remaining_qty.is_positive() {
                break;
            }
            let ghost n = executions@.len() as int;
            let mut maker = level.pop_front().unwrap();
            proof {
                assert(l0.skip(n)[0] == l0[n]);
                assert(order_rests(l0[n], self.s));
                lemma_level_volume_front(l0.skip(n));
                assert(l0.skip(n).skip(1) =~= l0.skip(n + 1));
            }
            let q = maker.filled_by(incoming, price);
            let ex = TradeExecution::new(q, price, incoming, &maker, taker_side);
            proof {
                lemma_executed_qty_push(executions@, ex);
                assert(incoming.fills@.take(in0.fills@.len() as int) =~= in0.fills@);
            }
            executions.push(ex);
            if maker.remaining_qty.is_positive() {
                proof {
                    assert(maker.fills@.drop_last() =~= l0[n].fills@);
                    lemma_level_volume_front(seq![maker] + level@);
                    assert((seq![maker] + level@).skip(1) =~= level@);
                }
                level.push_front(maker);
                proof {
                    assert(level@.skip(1) =~= l0.skip(n + 1));
                }
                break;
            }
        }
        let ghost l1 = level@;
        proof {
            lemma_map_sum_remove(m, volume_term(), p);
            lemma_map_sum_remove(m, len_term(), p);
            lemma_map_sum_insert(m, volume_term(), p, l1);
            lemma_map_sum_insert(m, len_term(), p, l1);
        }
        if level.len() == 0 {
            self.price_set.remove(&p);
        } else {
            self.price_levels.insert(p, level);
            proof {
                assert(m.remove(p).insert(p, l1) =~= m.insert(p, l1));
            }
        }
        proof {
            let n = self.levels();
            let k = executions@.len() as int;
            assert(n == set_level(m, p, l1));
            assert(self.price_set@ =~= n.dom());
            assert(n.dom().finite());
            lemma_matched_level_ok(l0, executions@, l1, in0.id, taker_side, price, self.s);
            assert(level_at(n, p) =~= l1);
            if executions@.len() == 0 {
                assert(set_level(m, p, l1) =~= m);
            }
            assert(level_at(m, p) == l0);
            assert forall|q: i128| #[trigger] n.contains_key(q) implies level_ok(n[q], self.s) by {
                if q == p {
                    assert(n[q] == l1);
                }
            }
            self.lemma_volume_nonneg();
        }
        executions
    }

    /// The prices of this side, best first: ascending for asks, descending for
    /// bids.
    pub fn iter_prices(&self) -> (r: Vec<Price>)
        requires
            self.wf(),
        ensures
            prices_best_first(self.s, self.levels(), r@),
    {
        let mut asc: Vec<i128> = Vec::new();
        let ghost s0 = vstd::std_specs::btree::spec_btree_keys_iter(&self.price_set).remaining();
        proof {
            vstd::std_specs::btree::axiom_spec_btree_keys_iter(&self.price_set);
        }
        for p in it: self.price_set.iter()
            invariant
                asc@ == it.seq().take(it.index() as int).map_values(|x: &i128| *x),
                it.seq() == s0,
        {
            asc.push(*p);
        }
        proof {
            assert(asc@ == s0.map_values(|x: &i128| *x));
            assert(s0.unref() =~= asc@);
            assert(increasing_seq(s0));
            broadcast use vstd::laws_cmp::lemma_ref_obeys_cmp_spec, vstd::laws_cmp::group_laws_cmp;
            assert(vstd::laws_cmp::obeys_cmp::<i128>());
            assert(vstd::laws_cmp::obeys_cmp::<&i128>());
            vstd::std_specs::btree::axiom_increasing_seq_meaning(s0);
            assert(asc@.len() == s0.len());
            assert forall|i: int, j: int| 0 <= i < j < asc@.len() implies asc@[i] < asc@[j] by {
                assert(<&i128 as OrdSpec>::cmp_spec(&s0[i], &s0[j]) is Less);
                assert(asc@[i] == *s0[i] && asc@[j] == *s0[j]);
            }
            assert forall|i: int| 0 <= i < asc@.len() implies self.levels().contains_key(#[trigger] asc@[i]) by {
                assert(asc@.to_set().contains(asc@[i]));
            }
            assert forall|p: i128| #[trigger] self.levels().contains_key(p) implies asc@.contains(p) by {
                assert(asc@.to_set().contains(p));
            }
        }
        let n = asc.len();
        let mut r: Vec<Price> = Vec::new();
        let mut i: usize = 0;
        while i < n
            invariant
                n == asc@.len(),
                i <= n,
                r@.len() == i,
                forall|k: int| 0 <= k < i ==> (#[trigger] r@[k]).units == match self.s {
                    Side::Ask => asc@[k],
                    Side::Bid => asc@[n - 1 - k],
                },
            decreases n - i,
        {
            let k = match self.s {
                Side::Ask => asc[i],
                Side::Bid => asc[n - 1 - i],
            };
            r.push(Fixed::from_units(k));
            i += 1;
        }
        proof {
            assert forall|p: i128| #[trigger] self.levels().contains_key(p) implies exists|k: int|
                0 <= k < r@.len() && (#[trigger] r@[k]).units == p by {
                let j = choose|j: int| 0 <= j < asc@.len() && asc@[j] == p;
                match self.s {
                    Side::Ask => assert(r@[j].units == p),
                    Side::Bid => assert(r@[n - 1 - j].units == p),
                }
            }
            assert(asc@.len() == s0.len());
        }
        r
    }

    /// Turns an enumeration of the prices into their volumes: the facts that
    /// the summing loops need.
    proof fn lemma_prices_sum(self, ps: Seq<Price>, f: spec_fn(Seq<TradeOrder>) -> int)
        requires
            self.wf(),
            prices_best_first(self.s, self.levels(), ps),
            forall|p: i128| #[trigger] self.levels().contains_key(p) ==> f(self.levels()[p]) >= 0,
        ensures
            ({
                let ks = ps.map_values(|x: Price| x.units);
                &&& ks.no_duplicates()
                &&& ks.to_set() == self.levels().dom()
                &&& keys_sum(self.levels(), f, ks) == map_sum(self.levels(), f)
                &&& forall|i: int| 0 <= i <= ks.len() ==> 0 <= #[trigger] keys_sum(self.levels(), f, ks.take(i)) <= map_sum(self.levels(), f)
            }),
    {
        let m = self.levels();
        let ks = ps.map_values(|x: Price| x.units);
        assert forall|i: int, j: int| 0 <= i < j < ks.len() implies ks[i] != ks[j] by {
            assert(ps[i].units != ps[j].units);
        }
        assert forall|i: int| 0 <= i < ks.len() implies m.contains_key(#[trigger] ks[i]) by {
            assert(m.contains_key(ps[i].units));
        }
        assert(ks.to_set() =~= m.dom()) by {
            assert forall|p: i128| m.contains_key(p) implies ks.to_set().contains(p) by {
                let i = choose|i: int| 0 <= i < ps.len() && (#[trigger] ps[i]).units == p;
                assert(ks[i] == p);
            }
        }
        lemma_keys_sum(m, f, ks);
        assert(m.restrict(ks.to_set()) =~= m);
        assert forall|i: int| 0 <= i <= ks.len() implies 0 <= #[trigger] keys_sum(m, f, ks.take(i)) <= map_sum(m, f) by {
            lemma_keys_sum_prefix(m, f, ks, i);
        }
    }

    proof fn lemma_volume_terms(self)
        requires
            self.wf(),
        ensures
            forall|p: i128| #[trigger] self.levels().contains_key(p) ==> volume_term()(self.levels()[p]) >= 0,
            forall|p: i128| #[trigger] self.levels().contains_key(p) ==> len_term()(self.levels()[p]) >= 0,
    {
        self.lemma_volume_nonneg();
    }

    /// Total remaining quantity on this side.
    pub fn get_total_volume(&self) -> (r: Quantity)
        requires
            self.wf(),
        ensures
            r.val() == volume(self.levels()),
    {
        let ps = self.iter_prices();
        let ghost m = self.levels();
        let ghost ks = ps@.map_values(|x: Price| x.units);
        proof {
            self.lemma_volume_terms();
            self.lemma_prices_sum(ps@, volume_term());
        }
        let mut total = Fixed::zero();
        let mut i: usize = 0;
        while i < ps.len()
            invariant
                self.wf(),
                m == self.levels(),
                ks == ps@.map_values(|x: Price| x.units),
                i <= ps@.len(),
                total.val() == keys_sum(m, volume_term(), ks.take(i as int)),
                forall|j: int| 0 <= j <= ks.len() ==> 0 <= #[trigger] keys_sum(m, volume_term(), ks.take(j)) <= volume(m),
                prices_best_first(self.s, m, ps@),
            decreases ps@.len() - i,
        {
            let q = self.get_total_qty(&ps[i]).unwrap();
            proof {
                assert(ks.take(i as int + 1).drop_last() =~= ks.take(i as int));
                assert(ks[i as int] == ps@[i as int].units);
                assert(keys_sum(m, volume_term(), ks.take(i as int + 1)) <= volume(m));
            }
            total = total.plus(q);
            i += 1;
        }
        proof {
            assert(ks.take(ks.len() as int) =~= ks);
        }
        total
    }

    /// Quantity available to a taker at `target_price` or better.
    pub fn get_available_quantity(&self, target_price: Price) -> (r: Quantity)
        requires
            self.wf(),
        ensures
            r.val() == available(self.levels(), self.s, target_price.units),
    {
        let ps = self.iter_prices();
        let ghost m = self.levels();
        let ghost ks = ps@.map_values(|x: Price| x.units);
        let t = target_price.units;
        proof {
            self.lemma_volume_terms();
            self.lemma_prices_sum(ps@, volume_term());
        }
        let mut total = Fixed::zero();
        let mut i: usize = 0;
        while i < ps.len()
            invariant
                self.wf(),
                m == self.levels(),
                ks == ps@.map_values(|x: Price| x.units),
                i <= ps@.len(),
                total.val() == keys_sum(m, volume_term(), ks.take(i as int)),
                forall|j: int| 0 <= j <= ks.len() ==> 0 <= #[trigger] keys_sum(m, volume_term(), ks.take(j)) <= volume(m),
                prices_best_first(self.s, m, ps@),
                forall|j: int| 0 <= j < i ==> within(self.s, #[trigger] ks[j], t),
            ensures
                i == ps@.len() || !within(self.s, ks[i as int], t),
            decreases ps@.len() - i,
        {
            let p = ps[i].units;
            let ok = match self.s {
                Side::Ask => p <= t,
                Side::Bid => p >= t,
            };
            if !ok {
                break;
            }
            let q = self.get_total_qty(&ps[i]).unwrap();
            proof {
                assert(ks.take(i as int + 1).drop_last() =~= ks.take(i as int));
                assert(ks[i as int] == ps@[i as int].units);
                assert(keys_sum(m, volume_term(), ks.take(i as int + 1)) <= volume(m));
            }
            total = total.plus(q);
            i += 1;
        }
        proof {
            let pre = ks.take(i as int);
            assert(pre.no_duplicates());
            assert forall|j: int| 0 <= j < pre.len() implies m.contains_key(#[trigger] pre[j]) by {
                assert(pre[j] == ks[j]);
                assert(ks.to_set().contains(ks[j]));
            }
            lemma_keys_sum(m, volume_term(), pre);
            let w = Set::new(|p: i128| within(self.s, p, t));
            assert(m.restrict(pre.to_set()) =~= m.restrict(w)) by {
                assert forall|p: i128| m.contains_key(p) implies (pre.to_set().contains(p) <==> w.contains(p)) by {
                    assert(ks.to_set().contains(p));
                    let j = choose|j: int| 0 <= j < ks.len() && ks[j] == p;
                    assert(ps@[j].units == p);
                    if j < i {
                        assert(pre[j] == p);
                    } else {
                        if pre.to_set().contains(p) {
                            let j2 = choose|j2: int| 0 <= j2 < pre.len() && pre[j2] == p;
                            assert(ks[j2] == p);
                            assert(ps@[j2].units == p);
                            if j2 < j {
                                assert(ps@[j2].units != ps@[j].units);
                            }
                        }
                        if w.contains(p) && j > i {
                            assert(ps@[i as int].units == ks[i as int]);
                        }
                    }
                }
            }
        }
        total
    }

    /// The levels best first, each with its total remaining quantity.
    pub fn get_levels(&self) -> (r: Vec<(Price, Quantity)>)
        requires
            self.wf(),
        ensures
            prices_best_first(self.s, self.levels(), r@.map_values(|x: (Price, Quantity)| x.0)),
            forall|i: int| 0 <= i < r@.len() ==> (#[trigger] r@[i]).1.val() == level_volume(self.levels()[r@[i].0.units]),
    {
        let ps = self.iter_prices();
        let mut r: Vec<(Price, Quantity)> = Vec::new();
        let mut i: usize = 0;
        while i < ps.len()
            invariant
                self.wf(),
                prices_best_first(self.s, self.levels(), ps@),
                i <= ps@.len(),
                r@.len() == i,
                forall|j: int| 0 <= j < i ==> (#[trigger] r@[j]).0 == ps@[j],
                forall|j: int| 0 <= j < i ==> (#[trigger] r@[j]).1.val() == level_volume(self.levels()[r@[j].0.units]),
            decreases ps@.len() - i,
        {
            let p = ps[i];
            let q = self.get_total_qty(&p).unwrap();
            r.push((p, q));
            i += 1;
        }
        proof {
            assert(r@.map_values(|x: (Price, Quantity)| x.0) =~= ps@);
        }
        r
    }

    /// The best and worst prices' distance: greatest minus least.
    pub fn get_price_range(&self) -> (r: Option<Price>)
        requires
            self.wf(),
        ensures
            match r {
                Some(d) => is_range(self.levels(), d.val()),
                None => self.levels().dom().is_empty(),
            },
    {
        let lo = match self.price_levels.min_index() {
            Some(k) => k,
            None => return None,
        };
        let hi = self.price_levels.max_index().unwrap();
        Some(Fixed::from_units(hi - lo))
    }

    /// The orders at `price`, oldest first; absent when there is no level.
    pub fn get_orders_at_price(&self, price: Price) -> (r: Option<Vec<&TradeOrder>>)
        ensures
            match r {
                Some(v) => self.levels().contains_key(price.units) && v@.map_values(|o: &TradeOrder| *o) == self.levels()[price.units],
                None => !self.levels().contains_key(price.units),
            },
    {
        let level = match self.price_levels.get(price.units) {
            Some(l) => l,
            None => return None,
        };
        let mut v: Vec<&TradeOrder> = Vec::new();
        let mut i: usize = 0;
        while i < level.len()
            invariant
                i <= level@.len(),
                v@.len() == i,
                forall|j: int| 0 <= j < i ==> *(#[trigger] v@[j]) == level@[j],
            decreases level@.len() - i,
        {
            v.push(&level[i]);
            i += 1;
        }
        proof {
            assert(v@.map_values(|o: &TradeOrder| *o) =~= level@);
        }
        Some(v)
    }

    /// The order `order_id` at `price`.
    pub fn get_order(&self, price: Price, order_id: OrderId) -> (r: Option<&TradeOrder>)
        requires
            self.wf(),
        ensures
            match r {
                Some(o) => {
                    &&& self.levels().contains_key(price.units)
                    &&& level_has(self.levels()[price.units], order_id)
                    &&& *o == self.levels()[price.units][index_of(self.levels()[price.units], order_id)]
                },
                None => !(self.levels().contains_key(price.units) && level_has(self.levels()[price.units], order_id)),
            },
    {
        let level = match self.price_levels.get(price.units) {
            Some(l) => l,
            None => return None,
        };
        let ghost l = level@;
        let mut i: usize = 0;
        while i < level.len()
            invariant
                i <= l.len(),
                level@ == l,
                self.wf(),
                self.levels().contains_key(price.units),
                l == self.levels()[price.units],
                forall|j: int| 0 <= j < i ==> l[j].id != order_id,
            decreases l.len() - i,
        {
            if level[i].id == order_id {
                proof {
                    assert(level_ok(l, self.s));
                    let k = index_of(l, order_id);
                    if k != i {
                        if k < i {
                            assert(l[k].id != l[i as int].id);
                        } else {
                            assert(l[i as int].id != l[k].id);
                        }
                    }
                }
                return Some(&level[i]);
            }
            i += 1;
        }
        None
    }

    /// Number of orders on this side.
    pub fn get_order_count(&self) -> (r: usize)
        requires
            self.wf(),
            order_count(self.levels()) <= usize::MAX,
        ensures
            r == order_count(self.levels()),
    {
        let ps = self.iter_prices();
        let ghost m = self.levels();
        let ghost ks = ps@.map_values(|x: Price| x.units);
        proof {
            self.lemma_volume_terms();
            self.lemma_prices_sum(ps@, len_term());
        }
        let mut total: usize = 0;
        let mut i: usize = 0;
        while i < ps.len()
            invariant
                self.wf(),
                m == self.levels(),
                ks == ps@.map_values(|x: Price| x.units),
                i <= ps@.len(),
                total == keys_sum(m, len_term(), ks.take(i as int)),
                forall|j: int| 0 <= j <= ks.len() ==> 0 <= #[trigger] keys_sum(m, len_term(), ks.take(j)) <= order_count(m),
                order_count(m) <= usize::MAX,
                prices_best_first(self.s, m, ps@),
            decreases ps@.len() - i,
        {
            let level = self.price_levels.get(ps[i].units).unwrap();
            proof {
                assert(ks.take(i as int + 1).drop_last() =~= ks.take(i as int));
                assert(ks[i as int] == ps@[i as int].units);
                assert(keys_sum(m, len_term(), ks.take(i as int + 1)) <= order_count(m));
            }
            total = total + level.len();
            i += 1;
        }
        proof {
            assert(ks.take(ks.len() as int) =~= ks);
        }
        total
    }

    /// Removes every level.
    pub fn clear(&mut self)
        ensures
            final(self).wf(),
            final(self).s == old(self).s,
            final(self).levels() == Map::<i128, Seq<TradeOrder>>::empty(),
    {
        self.price_set.clear();
        self.price_levels = SparseVec::with_capacity(10_000);
        proof {
            assert(self.price_set@ =~= self.levels().dom());
        }
    }

    /// Merges `order` into the resting order with its id at `price`, which
    /// keeps its place in the level.
    pub fn merge_at(&mut self, price: &Price, order: TradeOrder)
        requires
            old(self).wf(),
            order.wf(),
            old(self).levels().contains_key(price.units),
            level_has(old(self).levels()[price.units], order.id),
            ({
                let e = old(self).levels()[price.units][index_of(old(self).levels()[price.units], order.id)];
                &&& e.spec_mergable(order)
                &&& e.initial_qty.val() + order.initial_qty.val() <= MAX_UNITS
            }),
            volume(old(self).levels()) + order.remaining_qty.val() <= MAX_UNITS,
        ensures
            final(self).wf(),
            final(self).s == old(self).s,
            ({
                let l = old(self).levels()[price.units];
                let i = index_of(l, order.id);
                let n = final(self).levels()[price.units];
                &&& final(self).levels() == old(self).levels().insert(price.units, n)
                &&& n == l.update(i, n[i])
                &&& merged(n[i], l[i], order)
            }),
            volume(final(self).levels()) == volume(old(self).levels()) + order.remaining_qty.val(),
            order_count(final(self).levels()) == order_count(old(self).levels()),
    {
        let p = price.units;
        let ghost m = self.levels();
        let ghost l = m[p];
        let ghost i = index_of(l, order.id);
        let mut level = self.price_levels.remove(p).unwrap();
        let mut k: usize = 0;
        while k < level.len()
            invariant_except_break
                forall|j: int| 0 <= j < k ==> level@[j].id != order.id,
            invariant
                k <= level@.len(),
                level@ == l,
                0 <= i < l.len(),
                l[i].id == order.id,
            ensures
                k < level@.len(),
                level@[k as int].id == order.id,
            decreases level@.len() - k,
        {
            if level[k].id == order.id {
                break;
            }
            k += 1;
        }
        proof {
            assert(level_ok(l, self.s));
            if k != i {
                if k < i {
                    assert(l[k as int].id != l[i].id);
                } else {
                    assert(l[i].id != l[k as int].id);
                }
            }
            assert(order_rests(l[i], self.s));
            l[i].lemma_wf_bounds();
        }
        let mut e = level.remove(k).unwrap();
        let back = e.merage(order);
        level.insert(k, e);
        self.price_levels.insert(p, level);
        proof {
            let n = l.update(i, e);
            assert(level@ =~= n);
            assert(m.remove(p).insert(p, n) =~= m.insert(p, n));
            assert(order_rests(e, self.s));
            assert(l.remove(i) =~= n.remove(i));
            lemma_level_volume_remove(l, i);
            lemma_level_volume_remove(n, i);
            lemma_map_sum_insert(m, volume_term(), p, n);
            lemma_map_sum_insert(m, len_term(), p, n);
            let nm = self.levels();
            assert(self.price_set@ =~= nm.dom());
            assert forall|q: i128| #[trigger] nm.contains_key(q) implies level_ok(nm[q], self.s) by {
                if q == p {
                    assert forall|a: int| 0 <= a < n.len() implies #[trigger] order_rests(n[a], self.s) by {
                        if a != i {
                            assert(n[a] == l[a]);
                        }
                    }
                    assert forall|a: int, b: int| #![trigger n[a].id, n[b].id] 0 <= a < b < n.len() implies n[a].id != n[b].id by {
                        assert(n[a].id == l[a].id && n[b].id == l[b].id);
                    }
                }
            }
        }
    }

    /// Withdraws `qty` from the resting order `order_id` at `price`, which
    /// keeps more than that; returns the order's new state.
    pub fn reduce_at(&mut self, price: &Price, order_id: OrderId, qty: Quantity) -> (r: OrderResult)
        requires
            old(self).wf(),
            old(self).levels().contains_key(price.units),
            level_has(old(self).levels()[price.units], order_id),
            0 <= qty.val() < old(self).levels()[price.units][index_of(old(self).levels()[price.units], order_id)].remaining_qty.val(),
        ensures
            final(self).wf(),
            final(self).s == old(self).s,
            ({
                let l = old(self).levels()[price.units];
                let i = index_of(l, order_id);
                let n = final(self).levels()[price.units];
                &&& final(self).levels() == old(self).levels().insert(price.units, n)
                &&& n == l.update(i, n[i])
                &&& reduced(n[i], l[i], qty.val())
                &&& r.describes(n[i])
                &&& r.status == status_of(n[i].remaining_qty, n[i].fills@, n[i].order_type)
            }),
            volume(final(self).levels()) == volume(old(self).levels()) - qty.val(),
            order_count(final(self).levels()) == order_count(old(self).levels()),
    {
        let p = price.units;
        let ghost m = self.levels();
        let ghost l = m[p];
        let ghost i = index_of(l, order_id);
        let mut level = self.price_levels.remove(p).unwrap();
        let mut k: usize = 0;
        while k < level.len()
            invariant_except_break
                forall|j: int| 0 <= j < k ==> level@[j].id != order_id,
            invariant
                k <= level@.len(),
                level@ == l,
                0 <= i < l.len(),
                l[i].id == order_id,
            ensures
                k < level@.len(),
                level@[k as int].id == order_id,
            decreases level@.len() - k,
        {
            if level[k].id == order_id {
                break;
            }
            k += 1;
        }
        proof {
            assert(level_ok(l, self.s));
            if k != i {
                if k < i {
                    assert(l[k as int].id != l[i].id);
                } else {
                    assert(l[i].id != l[k as int].id);
                }
            }
            assert(order_rests(l[i], self.s));
        }
        let mut e = level.remove(k).unwrap();
        e.cancel(qty);
        let r = OrderResult::of_order(&e);
        level.insert(k, e);
        self.price_levels.insert(p, level);
        proof {
            let n = l.update(i, e);
            assert(level@ =~= n);
            assert(m.remove(p).insert(p, n) =~= m.insert(p, n));
            assert(order_rests(e, self.s));
            assert(l.remove(i) =~= n.remove(i));
            lemma_level_volume_remove(l, i);
            lemma_level_volume_remove(n, i);
            lemma_map_sum_insert(m, volume_term(), p, n);
            lemma_map_sum_insert(m, len_term(), p, n);
            let nm = self.levels();
            assert(self.price_set@ =~= nm.dom());
            assert forall|q: i128| #[trigger] nm.contains_key(q) implies level_ok(nm[q], self.s) by {
                if q == p {
                    assert forall|a: int| 0 <= a < n.len() implies #[trigger] order_rests(n[a], self.s) by {
                        if a != i {
                            assert(n[a] == l[a]);
                        }
                    }
                    assert forall|a: int, b: int| #![trigger n[a].id, n[b].id] 0 <= a < b < n.len() implies n[a].id != n[b].id by {
                        assert(n[a].id == l[a].id && n[b].id == l[b].id);
                    }
                }
            }
            self.lemma_volume_nonneg();
        }
        r
    }

    /// The best price, if the side is not empty.
    pub fn best_price(&self) -> (r: Option<Price>)
        requires
            self.wf(),
        ensures
            match r {
                Some(p) => self.is_best(p.units),
                None => self.levels().dom().is_empty(),
            },
    {
        match self.s {
            Side::Ask => match self.price_levels.min_index() {
                Some(k) => Some(Fixed::from_units(k)),
                None => None,
            },
            Side::Bid => match self.price_levels.max_index() {
                Some(k) => Some(Fixed::from_units(k)),
                None => None,
            },
        }
    }

    pub fn get_price_level(&self, price: &Price) -> (r: Option<&PriceLevel>)
        ensures
            match r {
                Some(l) => self.levels().contains_key(price.units) && l@ == self.levels()[price.units],
                None => !self.levels().contains_key(price.units),
            },
    {
        self.price_levels.get(price.units)
    }

    /// Number of price levels.
    pub fn get_depth(&self) -> (r: usize)
        requires
            self.wf(),
        ensures
            r == self.levels().dom().len(),
    {
        self.price_set.len()
    }

    pub fn is_empty(&self) -> (r: bool)
        requires
            self.wf(),
        ensures
            r == self.levels().dom().is_empty(),
    {
        self.price_set.is_empty()
    }

    /// Total remaining quantity at `price`; absent when there is no level there.
    pub fn get_total_qty(&self, price: &Price) -> (r: Option<Quantity>)
        requires
            self.wf(),
        ensures
            match r {
                Some(q) => self.levels().contains_key(price.units) && q.val() == level_volume(self.levels()[price.units]),
                None => !self.levels().contains_key(price.units),
            },
    {
        let level = match self.price_levels.get(price.units) {
            Some(l) => l,
            None => return None,
        };
        let ghost l = level@;
        proof {
            self.lemma_volume_nonneg();
            assert(level_ok(l, self.s));
            assert forall|i: int| 0 <= i < l.len() implies #[trigger] l[i].remaining_qty.val() >= 0 by {
                assert(order_rests(l[i], self.s));
            }
            lemma_level_volume_nonneg(l);
        }
        let mut total = Fixed::zero();
        let mut i: usize = 0;
        while i < level.len()
            invariant
                i <= l.len(),
                level@ == l,
                total.val() == level_volume(l.take(i as int)),
                level_volume(l) <= MAX_UNITS,
                forall|j: int| 0 <= j <= l.len() ==> #[trigger] level_volume(l.take(j)) <= level_volume(l),
                forall|j: int| 0 <= j < l.len() ==> #[trigger] l[j].remaining_qty.val() >= 0,
            decreases l.len() - i,
        {
            proof {
                assert(l.take(i as int + 1).drop_last() =~= l.take(i as int));
                assert(level_volume(l.take(i as int)) >= 0) by {
                    lemma_level_volume_nonneg(l.take(i as int));
                }
                assert(level_volume(l.take(i as int + 1)) <= level_volume(l));
            }
            total = total.plus(level[i].remaining_qty);
            i += 1;
        }
        proof {
            assert(l.take(l.len() as int) =~= l);
        }
        Some(total)
    }
}

} // verus!
