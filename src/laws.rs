use vstd::prelude::*;

use crate::book::{
    available, ids_distinct, index_of, level_has, level_ok, matched, with_order, within, without,
};
use crate::order_book::{
    better_used_up, in_priority, located, trade_pos, valid_request, Notification, OrderBook,
};
use crate::orders::{fills_qty, OrderRequest, OrderResult, OrderStatus, OrderType, TradeExecution, TradeOrder};
use crate::sums::{order_count, volume};
use crate::types::{OrderId, Price, Side};

verus! {

/// The id index has one entry per resting order.
pub proof fn law_index_counts_orders(b: OrderBook)
    requires
        b.wf(),
    ensures
        b.loc().dom().len() == order_count(b.ask_levels()) + order_count(b.bid_levels()),
{
}

/// Placing an order leaves one index entry per resting order, each at the
/// place where its order rests, and no id resting twice.
pub proof fn law_place_keeps_index(b0: OrderBook, order: OrderRequest, r: (OrderResult, Vec<TradeExecution>), b1: OrderBook)
    requires
        b0.wf(),
        b0.place_outcome(order, r, b1),
    ensures
        b1.loc().dom().len() == order_count(b1.ask_levels()) + order_count(b1.bid_levels()),
        located(b1.ask_levels(), b1.bid_levels(), b1.loc()),
        forall|p: i128| #[trigger] b1.ask_levels().contains_key(p) ==> ids_distinct(b1.ask_levels()[p]),
        forall|p: i128| #[trigger] b1.bid_levels().contains_key(p) ==> ids_distinct(b1.bid_levels()[p]),
{
    assert forall|p: i128| #[trigger] b1.ask_levels().contains_key(p) implies ids_distinct(b1.ask_levels()[p]) by {
        assert(level_ok(b1.ask_levels()[p], Side::Ask));
    }
    assert forall|p: i128| #[trigger] b1.bid_levels().contains_key(p) implies ids_distinct(b1.bid_levels()[p]) by {
        assert(level_ok(b1.bid_levels()[p], Side::Bid));
    }
}

/// Deleting an order keeps the index in agreement with the book, one entry per
/// resting order.
pub proof fn law_delete_keeps_index(b0: OrderBook, id: OrderId, r: Option<OrderResult>, b1: OrderBook)
    requires
        b0.wf(),
        b0.delete_outcome(id, r, b1),
    ensures
        b1.loc().dom().len() == order_count(b1.ask_levels()) + order_count(b1.bid_levels()),
        located(b1.ask_levels(), b1.bid_levels(), b1.loc()),
{
}

/// Each id in the index rests at the side and price recorded for it.
pub proof fn law_index_locates(b: OrderBook, id: OrderId)
    requires
        b.wf(),
        b.loc().contains_key(id),
    ensures
        b.at(b.loc()[id].0).contains_key(b.loc()[id].1.units),
        level_has(b.at(b.loc()[id].0)[b.loc()[id].1.units], id),
        b.order_of(id).id == id,
        b.order_of(id).side == b.loc()[id].0,
{
    let (s, p) = b.loc()[id];
    let l = b.at(s)[p.units];
    assert(level_ok(l, s));
    assert(crate::book::order_rests(l[index_of(l, id)], s));
}

/// In an uncrossed book the best bid is below the best ask.
pub proof fn law_best_bid_below_best_ask(b: OrderBook, ask: i128, bid: i128)
    requires
        b.wf(),
        b.is_uncrossed(),
        b.asks.is_best(ask),
        b.bids.is_best(bid),
    ensures
        bid < ask,
{
}

/// Placing an order keeps the book uncrossed, unless it is a system-level
/// order resting at a price that meets the other side.
pub proof fn law_place_keeps_uncrossed(b0: OrderBook, order: OrderRequest, r: (OrderResult, Vec<TradeExecution>), b1: OrderBook)
    requires
        b0.wf(),
        b0.is_uncrossed(),
        b0.place_outcome(order, r, b1),
        !(order.order_type is SystemLevel && b0.crosses(order.side, order.order_type->SystemLevel_0)),
    ensures
        b1.is_uncrossed(),
{
}

/// Deleting an order keeps the book uncrossed.
pub proof fn law_delete_keeps_uncrossed(b0: OrderBook, id: OrderId, r: Option<OrderResult>, b1: OrderBook)
    requires
        b0.wf(),
        b0.is_uncrossed(),
        b0.delete_outcome(id, r, b1),
    ensures
        b1.is_uncrossed(),
{
    if r is Some {
        let (s, p) = b0.loc()[id];
        let l = b0.at(s)[p.units];
        let i = index_of(l, id);
        assert(b1.at(s).dom().subset_of(b0.at(s).dom()));
        assert forall|x: i128, y: i128| #[trigger] b1.ask_levels().contains_key(x) && #[trigger] b1.bid_levels().contains_key(y) implies y < x by {
            assert(b0.ask_levels().contains_key(x));
            assert(b0.bid_levels().contains_key(y));
        }
    }
}

/// An order joining a level goes behind every order already there, which keep
/// their order.
pub proof fn law_join_at_back(m: Map<i128, Seq<TradeOrder>>, p: i128, o: TradeOrder)
    ensures
        with_order(m, p, o)[p].last() == o,
        m.contains_key(p) ==> with_order(m, p, o)[p].drop_last() == m[p],
        !m.contains_key(p) ==> with_order(m, p, o)[p].len() == 1,
{
    if m.contains_key(p) {
        assert(m[p].push(o).drop_last() =~= m[p]);
    }
}

/// A match takes orders from the front of a level only: the orders left are
/// the last ones of the level, in the same order, the head possibly with less
/// quantity.
pub proof fn law_match_from_front(
    l0: Seq<TradeOrder>,
    e: Seq<TradeExecution>,
    l1: Seq<TradeOrder>,
    taker: OrderId,
    taker_side: Side,
    price: Price,
)
    requires
        matched(l0, e, l1, taker, taker_side, price),
    ensures
        l1.len() <= l0.len(),
        forall|k: int| 0 < k < l1.len() ==> #[trigger] l1[k] == l0[l0.len() - l1.len() + k],
        l1.len() > 0 ==> l1[0].id == l0[l0.len() - l1.len()].id,
{
    let n = e.len() as int;
    if n > 0 && e[n - 1].qty.val() < l0[n - 1].remaining_qty.val() {
        assert forall|k: int| 0 < k < l1.len() implies #[trigger] l1[k] == l0[l0.len() - l1.len() + k] by {
            assert(l1[k] == l1.skip(1)[k - 1]);
            assert(l0.skip(n)[k - 1] == l0[n + k - 1]);
        }
    } else {
        assert forall|k: int| 0 < k < l1.len() implies #[trigger] l1[k] == l0[l0.len() - l1.len() + k] by {
            assert(l1[k] == l0.skip(n)[k]);
        }
        if l1.len() > 0 {
            assert(l1[0] == l0.skip(n)[0]);
        }
    }
}

/// Every resting order's quantities add up: what left its initial quantity was
/// filled or cancelled; with no partial cancellation, the fills alone account
/// for it.
pub proof fn law_order_quantities(b: OrderBook, id: OrderId)
    requires
        b.wf(),
        b.loc().contains_key(id),
    ensures
        b.order_of(id).remaining_qty.val() <= b.order_of(id).initial_qty.val(),
        b.order_of(id).initial_qty.val() - b.order_of(id).remaining_qty.val() == fills_qty(b.order_of(id).fills@)
            + b.order_of(id).cancelled_qty.val(),
        b.order_of(id).cancelled_qty.val() == 0 ==> b.order_of(id).initial_qty.val() - b.order_of(id).remaining_qty.val()
            == fills_qty(b.order_of(id).fills@),
{
    let (s, p) = b.loc()[id];
    let l = b.at(s)[p.units];
    assert(level_ok(l, s));
    let i = index_of(l, id);
    assert(crate::book::order_rests(l[i], s));
    l[i].lemma_wf_bounds();
}

/// The result of a placement accounts for its quantity: what left the
/// initial quantity is the sum of the fills, which is the quantity traded.
pub proof fn law_placed_result_quantities(b0: OrderBook, order: OrderRequest, r: (OrderResult, Vec<TradeExecution>), b1: OrderBook)
    requires
        b0.wf(),
        valid_request(order),
        !b0.fok_rejects(order),
        b0.place_outcome(order, r, b1),
    ensures
        r.0.initial_qty.val() - r.0.remaining_qty.val() == fills_qty(r.0.fills@),
        fills_qty(r.0.fills@) == crate::book::executed_qty(r.1@),
        0 <= r.0.remaining_qty.val() <= r.0.initial_qty.val(),
        (order.order_type is Limit && r.0.remaining_qty.val() > 0) ==> {
            let rested = b1.at(order.side)[order.order_type->Limit_0.units].last();
            &&& rested.cancelled_qty.val() == 0
            &&& rested.initial_qty.val() - rested.remaining_qty.val() == fills_qty(rested.fills@)
        },
{
    crate::book::lemma_executed_qty_nonneg(r.1@);
}

/// The trades of a placement follow price-time priority: at each price they
/// take the level's orders from its head, each using its maker up but the
/// last trade; they come best price first; and a price is reached only once
/// every better level is used up.
pub proof fn law_trades_in_priority(b0: OrderBook, order: OrderRequest, r: (OrderResult, Vec<TradeExecution>), b1: OrderBook)
    requires
        b0.wf(),
        valid_request(order),
        !b0.fok_rejects(order),
        !(order.order_type is SystemLevel),
        b0.place_outcome(order, r, b1),
    ensures
        ({
            let o = order.side.spec_opposite();
            let m = b0.at(o);
            let e = r.1@;
            &&& forall|i: int| 0 <= i < e.len() ==> {
                let l = m[(#[trigger] e[i]).price.units];
                &&& m.contains_key(e[i].price.units)
                &&& 0 <= trade_pos(e, i) < l.len()
                &&& e[i].maker_order_id == l[trade_pos(e, i)].id
                &&& i + 1 < e.len() ==> e[i].qty.val() == l[trade_pos(e, i)].remaining_qty.val()
            }
            &&& forall|i: int, j: int| #![trigger e[i], e[j]] 0 <= i < j < e.len() ==> within(o, e[i].price.units, e[j].price.units)
            &&& forall|i: int, q: i128| #![trigger e[i], m.contains_key(q)] 0 <= i < e.len() && m.contains_key(q) && within(
                o,
                q,
                e[i].price.units,
            ) && q != e[i].price.units ==> !b1.at(o).contains_key(q)
        }),
{
    reveal(in_priority);
    reveal(better_used_up);
}

/// Placing a limit order that meets nothing, then deleting it, gives back the
/// depth and the volume of both sides; the delete drops exactly its index
/// entry.
pub proof fn law_place_then_delete(
    b0: OrderBook,
    order: OrderRequest,
    r: (OrderResult, Vec<TradeExecution>),
    b1: OrderBook,
    d: Option<OrderResult>,
    b2: OrderBook,
)
    requires
        b0.wf(),
        b1.wf(),
        valid_request(order),
        b0.admissible(order),
        order.order_type is Limit,
        !b0.crosses(order.side, order.order_type->Limit_0),
        b0.place_outcome(order, r, b1),
        b1.delete_outcome(order.id, d, b2),
    ensures
        b2.depth() == b0.depth(),
        b2.total_volume() == b0.total_volume(),
        !b0.loc().contains_key(order.id),
        b1.loc().contains_key(order.id),
        b2.loc() == b1.loc().remove(order.id),
{
    let s = order.side;
    let o = s.spec_opposite();
    let pl = order.order_type->Limit_0;
    let (res, execs) = r;
    if execs@.len() > 0 {
        let e = execs@[0];
        assert(b0.at(o).contains_key(e.price.units));
        assert(OrderBook::eligible(s, order.order_type.spec_price(), e.price.units));
        assert(within(o, e.price.units, pl.units));
    }
    assert(execs@.len() == 0);
    let rested = b1.at(s)[pl.units].last();
    assert(b1.at(s) == with_order(b0.at(s), pl.units, rested));
    assert(b1.loc()[order.id] == (s, pl));
    let l1 = b1.at(s)[pl.units];
    assert(level_ok(l1, s));
    let k = index_of(l1, order.id);
    assert(rested.id == order.id);
    if k != l1.len() - 1 {
        assert(l1[k].id != l1[l1.len() - 1].id);
    }
    if b0.at(s).contains_key(pl.units) {
        assert(l1.remove(k) =~= b0.at(s)[pl.units]);
        assert(b0.at(s)[pl.units].len() > 0) by {
            assert(level_ok(b0.at(s)[pl.units], s));
        }
        assert(without(b1.at(s), pl.units, k) =~= b0.at(s));
    } else {
        assert(l1.remove(k) =~= Seq::<TradeOrder>::empty());
        assert(without(b1.at(s), pl.units, k) =~= b0.at(s));
    }
    assert(b2.at(s) == b0.at(s));
    assert(b2.at(o) == b0.at(o));
    if s == Side::Ask {
        assert(b2.ask_levels() == b0.ask_levels());
        assert(b2.bid_levels() == b0.bid_levels());
    } else {
        assert(b2.ask_levels() == b0.ask_levels());
        assert(b2.bid_levels() == b0.bid_levels());
    }
}

/// A limit order placed against an empty other side trades nothing, is
/// reported open with no fills, rests as one new order, and gives exactly one
/// event: its arrival.
pub proof fn law_limit_on_empty_side(b0: OrderBook, order: OrderRequest, r: (OrderResult, Vec<TradeExecution>), b1: OrderBook)
    requires
        b0.wf(),
        valid_request(order),
        order.order_type is Limit,
        b0.at(order.side.spec_opposite()).dom().is_empty(),
        b0.place_outcome(order, r, b1),
    ensures
        r.0.status == OrderStatus::Open,
        r.0.fills@.len() == 0,
        r.1@.len() == 0,
        b1.loc().contains_key(order.id),
        b1.at(order.side) == with_order(b0.at(order.side), order.order_type->Limit_0.units, b1.at(order.side)[order.order_type->Limit_0.units].last()),
        r.0.describes(b1.at(order.side)[order.order_type->Limit_0.units].last()),
        b1.at(order.side.spec_opposite()) == b0.at(order.side.spec_opposite()),
        b1.events@ == b0.events@.push(Notification::OrderAdded {
            order_id: order.id,
            price: order.order_type->Limit_0,
            qty: order.qty,
            side: order.side,
        }),
{
    if r.1@.len() > 0 {
        assert(b0.at(order.side.spec_opposite()).contains_key(r.1@[0].price.units));
    }
    let e0 = b0.events@;
    let new = b1.events@.skip(e0.len() as int);
    assert(new.len() == 1);
    assert(b1.events@ =~= b1.events@.take(e0.len() as int) + new);
    assert(new =~= seq![new.last()]);
}

/// A market order against an empty other side is cancelled with no fills.
pub proof fn law_market_on_empty_side(b0: OrderBook, order: OrderRequest, r: (OrderResult, Vec<TradeExecution>), b1: OrderBook)
    requires
        b0.wf(),
        valid_request(order),
        order.order_type is Market,
        b0.at(order.side.spec_opposite()).dom().is_empty(),
        b0.place_outcome(order, r, b1),
    ensures
        r.0.status == OrderStatus::Cancelled,
        r.0.fills@.len() == 0,
        r.1@.len() == 0,
        b1.ask_levels() == b0.ask_levels(),
        b1.bid_levels() == b0.bid_levels(),
        b1.events@ == b0.events@,
{
    if r.1@.len() > 0 {
        assert(b0.at(order.side.spec_opposite()).contains_key(r.1@[0].price.units));
    }
    let e0 = b0.events@;
    let new = b1.events@.skip(e0.len() as int);
    assert(new.len() == 0);
    assert(b1.events@ =~= b1.events@.take(e0.len() as int) + new);
    if order.side == Side::Ask {
        assert(b1.ask_levels() == b0.ask_levels());
    } else {
        assert(b1.bid_levels() == b0.bid_levels());
    }
}

/// An IOC order that trades only part of its quantity is reported partially
/// filled, and its remainder does not rest: its side is unchanged, no id is
/// added to the index, and no arrival event is given.
pub proof fn law_ioc_partial(b0: OrderBook, order: OrderRequest, r: (OrderResult, Vec<TradeExecution>), b1: OrderBook)
    requires
        b0.wf(),
        valid_request(order),
        order.order_type is IOC,
        r.1@.len() > 0,
        r.0.remaining_qty.val() > 0,
        b0.place_outcome(order, r, b1),
    ensures
        r.0.status == OrderStatus::PartiallyFilled,
        crate::book::executed_qty(r.1@) == b0.reachable(order),
        r.0.remaining_qty.val() == order.qty.val() - b0.reachable(order),
        b1.at(order.side) == b0.at(order.side),
        b1.loc().submap_of(b0.loc()),
        forall|k: int| b0.events@.len() <= k < b1.events@.len() ==> !(#[trigger] b1.events@[k] is OrderAdded),
{
    let e0 = b0.events@;
    let new = b1.events@.skip(e0.len() as int);
    let n = r.1@.len();
    let m = new.len() - n;
    assert forall|k: int| e0.len() <= k < b1.events@.len() implies !(#[trigger] b1.events@[k] is OrderAdded) by {
        let j = k - e0.len();
        assert(b1.events@[k] == new[j]);
        if j < n {
            assert(new[j] == Notification::TradeExecuted(r.1@[j]));
        } else {
            assert(new.subrange(n as int, n + m)[j - n] == new[j]);
        }
    }
}

/// A fill-or-kill order the other side cannot fill at its price is cancelled
/// with no fills, and the book is left exactly as it was.
pub proof fn law_fok_shortfall(b0: OrderBook, order: OrderRequest, r: (OrderResult, Vec<TradeExecution>), b1: OrderBook)
    requires
        b0.wf(),
        order.order_type is FOK,
        available(b0.at(order.side.spec_opposite()), order.side.spec_opposite(), order.order_type->FOK_0.units) < order.qty.val(),
        b0.place_outcome(order, r, b1),
    ensures
        r.0.status == OrderStatus::Cancelled,
        r.0.fills@.len() == 0,
        r.1@.len() == 0,
        b1.ask_levels() == b0.ask_levels(),
        b1.bid_levels() == b0.bid_levels(),
        b1.loc() == b0.loc(),
        b1.events == b0.events,
{
}

/// Submitting the same system-level order twice leaves one resting order
/// under its id, with twice the quantity, initial and remaining.
pub proof fn law_system_level_twice(
    b0: OrderBook,
    order: OrderRequest,
    r1: (OrderResult, Vec<TradeExecution>),
    b1: OrderBook,
    r2: (OrderResult, Vec<TradeExecution>),
    b2: OrderBook,
)
    requires
        b0.wf(),
        b1.wf(),
        valid_request(order),
        order.order_type is SystemLevel,
        !b0.loc().contains_key(order.id),
        b0.place_outcome(order, r1, b1),
        b1.place_outcome(order, r2, b2),
    ensures
        b2.loc().contains_key(order.id),
        b2.loc() == b1.loc(),
        b2.order_of(order.id).initial_qty.val() == 2 * order.qty.val(),
        b2.order_of(order.id).remaining_qty.val() == 2 * order.qty.val(),
{
}

} // verus!
