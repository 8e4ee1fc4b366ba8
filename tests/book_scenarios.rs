use orderbooklib::{
    create_id_from_bytes, Fixed, Notification, OrderBook, OrderRequest, OrderStatus, OrderType, Side,
};

fn px(n: i64) -> Fixed {
    Fixed::from_int(n)
}

fn limit(side: Side, qty: i64, price: i64) -> OrderRequest {
    OrderRequest::new(side, px(qty), OrderType::limit(px(price)))
}

#[test]
fn simple_cross() {
    let mut book = OrderBook::new();
    let bid = limit(Side::Bid, 10, 100);
    let (res, execs) = book.add_order(bid);
    assert_eq!(res.status, OrderStatus::Open);
    assert!(execs.is_empty());
    assert_eq!(book.get_depth(), (0, 1));

    let (res, execs) = book.add_order(limit(Side::Ask, 4, 100));
    assert_eq!(execs.len(), 1);
    assert_eq!(execs[0].qty, px(4));
    assert_eq!(execs[0].price, px(100));
    assert_eq!(execs[0].take_side, Side::Ask);
    assert_eq!(execs[0].maker_order_id, bid.id());
    assert_eq!(res.status, OrderStatus::Filled);
    let level = book.get_orders_at_price(Side::Bid, px(100)).unwrap();
    assert_eq!(level.len(), 1);
    assert_eq!(level[0].id, bid.id());
    assert_eq!(level[0].remaining_qty, px(6));
    assert_eq!(book.get_depth(), (0, 1));
}

#[test]
fn price_time_priority() {
    let mut book = OrderBook::new();
    let a = limit(Side::Bid, 5, 100);
    let b = limit(Side::Bid, 5, 100);
    let c = limit(Side::Bid, 5, 101);
    book.add_order(a);
    book.add_order(b);
    book.add_order(c);
    let (res, execs) = book.add_order(limit(Side::Ask, 7, 100));
    assert_eq!(res.status, OrderStatus::Filled);
    assert_eq!(execs.len(), 2);
    assert_eq!(execs[0].maker_order_id, c.id());
    assert_eq!(execs[0].qty, px(5));
    assert_eq!(execs[0].price, px(101));
    assert_eq!(execs[1].maker_order_id, a.id());
    assert_eq!(execs[1].qty, px(2));
    assert_eq!(execs[1].price, px(100));
    assert!(book.get_order(c.id()).is_none());
    let level = book.get_orders_at_price(Side::Bid, px(100)).unwrap();
    assert_eq!(level[0].id, a.id());
    assert_eq!(level[0].remaining_qty, px(3));
    assert_eq!(level[1].id, b.id());
    assert_eq!(level[1].remaining_qty, px(5));
    assert_eq!(book.get_depth().1, 1);
}

fn two_asks() -> OrderBook {
    let mut book = OrderBook::new();
    book.add_order(limit(Side::Ask, 3, 50));
    book.add_order(limit(Side::Ask, 2, 51));
    book
}

#[test]
fn fok_failure_leaves_book() {
    let mut book = two_asks();
    let req = OrderRequest::new(Side::Bid, px(10), OrderType::fok(px(51)));
    let (res, execs) = book.add_order(req);
    assert_eq!(res.status, OrderStatus::Cancelled);
    assert!(res.fills.is_empty());
    assert!(execs.is_empty());
    assert_eq!(book.get_volume_at_price(&Side::Ask, &px(50)), Some(px(3)));
    assert_eq!(book.get_volume_at_price(&Side::Ask, &px(51)), Some(px(2)));
    assert_eq!(book.get_order_count(), 2);
}

#[test]
fn fok_success_across_levels() {
    let mut book = two_asks();
    let req = OrderRequest::new(Side::Bid, px(5), OrderType::fok(px(51)));
    let (res, execs) = book.add_order(req);
    assert_eq!(execs.len(), 2);
    assert_eq!((execs[0].qty, execs[0].price), (px(3), px(50)));
    assert_eq!((execs[1].qty, execs[1].price), (px(2), px(51)));
    assert_eq!(res.status, OrderStatus::Filled);
    assert!(book.asks.is_empty());
    assert_eq!(book.best_ask(), None);
}

#[test]
fn available_quantity_by_limit() {
    let book = two_asks();
    assert_eq!(book.asks.get_available_quantity(px(49)), px(0));
    assert_eq!(book.asks.get_available_quantity(px(50)), px(3));
    assert_eq!(book.asks.get_available_quantity(px(51)), px(5));
}

#[test]
fn partial_cancel_then_escalation() {
    let mut book = OrderBook::new();
    let x = limit(Side::Bid, 10, 100);
    book.add_order(x);
    let r = book.cancel_order(x.id(), px(4)).unwrap();
    assert_eq!(r.remaining_qty, px(6));
    assert_eq!(r.status, OrderStatus::Open);
    assert_eq!(book.get_order(x.id()).unwrap().remaining_qty, px(6));
    let r = book.cancel_order(x.id(), px(20)).unwrap();
    assert_eq!(r.remaining_qty, px(0));
    assert_eq!(r.status, OrderStatus::Cancelled);
    assert!(book.get_order(x.id()).is_none());
    assert!(book.cancel_order(x.id(), px(1)).is_none());
}

#[test]
fn system_level_merge() {
    let mut book = OrderBook::new();
    let first = OrderRequest::new(Side::Bid, px(5), OrderType::system_level(px(100)));
    let second = OrderRequest::new(Side::Bid, px(7), OrderType::system_level(px(100)));
    assert_eq!(first.id(), create_id_from_bytes(b"100"));
    assert_eq!(first.id(), second.id());
    let (r1, _) = book.add_order(first);
    assert_eq!(r1.status, OrderStatus::Open);
    book.add_order(second);
    assert_eq!(book.get_order_count(), 1);
    let o = book.get_order(first.id()).unwrap();
    assert_eq!(o.initial_qty, px(12));
    assert_eq!(o.remaining_qty, px(12));
}

#[test]
fn system_level_twice_doubles() {
    let mut book = OrderBook::new();
    let req = OrderRequest::new(Side::Ask, px(3), OrderType::system_level(px(42)));
    book.add_order(req);
    book.add_order(req);
    assert_eq!(book.get_order_count(), 1);
    let o = book.get_order(req.id()).unwrap();
    assert_eq!(o.initial_qty, px(6));
    assert_eq!(o.remaining_qty, px(6));
    assert_eq!(book.get_depth(), (1, 0));
}

#[test]
fn place_then_delete_round_trip() {
    let mut book = two_asks();
    book.add_order(limit(Side::Bid, 4, 40));
    let depth = book.get_depth();
    let volume = book.get_total_volume();
    let count = book.get_order_count();
    let req = limit(Side::Bid, 9, 45);
    book.add_order(req);
    assert_eq!(book.get_order_count(), count + 1);
    let r = book.delete_order(req.id()).unwrap();
    assert_eq!(r.status, OrderStatus::Cancelled);
    assert_eq!(r.remaining_qty, px(9));
    assert_eq!(book.get_depth(), depth);
    assert_eq!(book.get_total_volume(), volume);
    assert_eq!(book.get_order_count(), count);
    assert!(book.delete_order(req.id()).is_none());
}

#[test]
fn limit_into_empty_side_rests() {
    let mut book = OrderBook::new();
    let req = limit(Side::Ask, 8, 70);
    let (res, execs) = book.add_order(req);
    assert_eq!(res.status, OrderStatus::Open);
    assert!(res.fills.is_empty());
    assert!(execs.is_empty());
    assert_eq!(book.get_order_count(), 1);
    assert_eq!(book.best_ask(), Some(px(70)));
}

#[test]
fn market_against_empty_side() {
    let mut book = OrderBook::new();
    book.add_order(limit(Side::Bid, 2, 10));
    let req = OrderRequest::new(Side::Bid, px(5), OrderType::Market);
    let (res, execs) = book.add_order(req);
    assert_eq!(res.status, OrderStatus::Cancelled);
    assert!(res.fills.is_empty());
    assert!(execs.is_empty());
    assert_eq!(book.get_order_count(), 1);
}

#[test]
fn market_sweeps_levels() {
    let mut book = two_asks();
    let req = OrderRequest::new(Side::Bid, px(4), OrderType::Market);
    let (res, execs) = book.add_order(req);
    assert_eq!(res.status, OrderStatus::Filled);
    assert_eq!(execs.len(), 2);
    assert_eq!(book.get_volume_at_price(&Side::Ask, &px(51)), Some(px(1)));
}

#[test]
fn ioc_partial_does_not_rest() {
    let mut book = two_asks();
    let req = OrderRequest::new(Side::Bid, px(4), OrderType::ioc(px(50)));
    let (res, execs) = book.add_order(req);
    assert_eq!(res.status, OrderStatus::PartiallyFilled);
    assert_eq!(res.remaining_qty, px(1));
    assert_eq!(execs.len(), 1);
    assert!(book.get_order(req.id()).is_none());
    assert!(book.bids.is_empty());
    assert_eq!(book.get_order_count(), 1);
}

#[test]
fn limit_partial_rests_remainder() {
    let mut book = two_asks();
    let req = limit(Side::Bid, 4, 50);
    let (res, execs) = book.add_order(req);
    assert_eq!(res.status, OrderStatus::PartiallyFilled);
    assert_eq!(execs.len(), 1);
    assert_eq!(book.best_bid(), Some(px(50)));
    assert_eq!(book.best_ask(), Some(px(51)));
    assert_eq!(book.get_order(req.id()).unwrap().remaining_qty, px(1));
    assert_eq!(book.spread(), Some(px(1)));
}

#[test]
fn invalid_requests_are_cancelled() {
    let mut book = two_asks();
    let zero = OrderRequest::new(Side::Bid, px(0), OrderType::limit(px(60)));
    let (res, execs) = book.add_order(zero);
    assert_eq!(res.status, OrderStatus::Cancelled);
    assert!(execs.is_empty());
    let neg_price = OrderRequest::new(Side::Bid, px(1), OrderType::limit(px(-5)));
    let (res, _) = book.add_order(neg_price);
    assert_eq!(res.status, OrderStatus::Cancelled);
    assert_eq!(book.get_order_count(), 2);
    assert_eq!(book.get_total_volume(), px(5));
}

#[test]
fn snapshot_ordering() {
    let mut book = two_asks();
    book.add_order(limit(Side::Bid, 1, 40));
    book.add_order(limit(Side::Bid, 2, 45));
    book.add_order(limit(Side::Bid, 3, 45));
    let st = book.get_order_book_state();
    assert_eq!(st.asks, vec![(px(51), px(2)), (px(50), px(3))]);
    assert_eq!(st.bids, vec![(px(45), px(5)), (px(40), px(1))]);
    assert_eq!(book.best_prices(), (Some(px(45)), Some(px(50))));
    assert_eq!(book.spread(), Some(px(5)));
    assert_eq!(book.get_price_range(), Some((px(1), px(5))));
}

#[test]
fn clear_empties_book() {
    let mut book = two_asks();
    assert!(!book.is_empty());
    book.clear();
    assert!(book.is_empty());
    assert_eq!(book.get_order_count(), 0);
    assert_eq!(book.get_total_volume(), px(0));
}

#[test]
fn events_of_a_cross() {
    let mut book = OrderBook::new();
    let bid = limit(Side::Bid, 10, 100);
    book.add_order(bid);
    let ev = book.take_events();
    assert_eq!(ev.len(), 1);
    assert!(matches!(ev[0], Notification::OrderAdded { order_id, side: Side::Bid, .. } if order_id == bid.id()));
    let small = limit(Side::Bid, 1, 100);
    book.add_order(small);
    book.take_events();
    let ask = limit(Side::Ask, 12, 100);
    book.add_order(ask);
    let ev = book.take_events();
    assert_eq!(ev.len(), 5);
    assert!(matches!(ev[0], Notification::TradeExecuted(e) if e.maker_order_id == bid.id()));
    assert!(matches!(ev[1], Notification::TradeExecuted(e) if e.maker_order_id == small.id()));
    assert!(matches!(ev[2], Notification::OrderRemoved { order_id, .. } if order_id == bid.id()));
    assert!(matches!(ev[3], Notification::OrderRemoved { order_id, .. } if order_id == small.id()));
    assert!(matches!(ev[4], Notification::OrderAdded { order_id, qty, .. } if order_id == ask.id() && qty == px(1)));
}

#[test]
fn rejected_fok_emits_nothing() {
    let mut book = two_asks();
    book.take_events();
    book.add_order(OrderRequest::new(Side::Bid, px(10), OrderType::fok(px(51))));
    assert!(book.take_events().is_empty());
}

#[test]
fn ioc_emits_no_arrival() {
    let mut book = two_asks();
    book.take_events();
    book.add_order(OrderRequest::new(Side::Bid, px(4), OrderType::ioc(px(50))));
    let ev = book.take_events();
    assert_eq!(ev.len(), 2);
    assert!(matches!(ev[0], Notification::TradeExecuted(_)));
    assert!(matches!(ev[1], Notification::OrderRemoved { .. }));
}

#[test]
fn merge_is_silent() {
    let mut book = OrderBook::new();
    let req = OrderRequest::new(Side::Bid, px(5), OrderType::system_level(px(100)));
    book.add_order(req);
    assert_eq!(book.take_events().len(), 1);
    book.add_order(req);
    assert!(book.take_events().is_empty());
}

#[test]
fn average_fill_price() {
    let mut book = two_asks();
    let (res, _) = book.add_order(OrderRequest::new(Side::Bid, px(5), OrderType::Market));
    assert_eq!(res.avr_fill_price(), Some(Fixed::from_units(50_400_000_000)));
    let (none, _) = book.add_order(OrderRequest::new(Side::Bid, px(5), OrderType::Market));
    assert_eq!(none.avr_fill_price(), None);
}
