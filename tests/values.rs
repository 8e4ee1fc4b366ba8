use orderbooklib::{
    create_id_from_bytes, is_valid_request, Fixed, OrderRequest, OrderResult, OrderStatus,
    OrderType, Side, TradeOrder, SCALE,
};

#[test]
fn fixed_from_int_scales() {
    assert_eq!(Fixed::from_int(100).units, 100 * SCALE);
    assert_eq!(Fixed::from_int(-3).units, -3 * SCALE);
    assert_eq!(Fixed::from_int(7).plus(Fixed::from_int(5)), Fixed::from_int(12));
    assert_eq!(Fixed::from_int(7).minus(Fixed::from_int(5)), Fixed::from_int(2));
    assert_eq!(Fixed::from_int(7).min(Fixed::from_int(5)), Fixed::from_int(5));
}

#[test]
fn system_level_id_uses_canonical_price_text() {
    let quarter = OrderRequest::new(Side::Ask, Fixed::from_int(1), OrderType::system_level(Fixed::from_units(SCALE / 4)));
    assert_eq!(quarter.id(), create_id_from_bytes(b"0.25"));
    let whole = OrderRequest::new(Side::Ask, Fixed::from_int(1), OrderType::system_level(Fixed::from_int(7)));
    assert_eq!(whole.id(), create_id_from_bytes(b"7"));
}

#[test]
fn conversions_from_request_and_order() {
    let req = OrderRequest::new_with_id(5, Side::Bid, Fixed::from_int(2), OrderType::limit(Fixed::from_int(3)));
    let t = TradeOrder::from(req);
    assert_eq!(t.id, 5);
    assert_eq!(t.remaining_qty, Fixed::from_int(2));
    let r = OrderResult::from(t);
    assert_eq!(r.status, OrderStatus::Open);
    assert_eq!(r.get_id(), 5);
}

#[test]
fn system_level_ids_follow_price_text() {
    let a = OrderRequest::new(Side::Bid, Fixed::from_int(1), OrderType::system_level(Fixed::from_int(100)));
    let b = OrderRequest::new_with_other_id(b"100", Side::Bid, Fixed::from_int(1), OrderType::limit(Fixed::from_int(1)));
    assert_eq!(a.id(), b.id());
    assert_eq!(a.id(), create_id_from_bytes(b"100"));
    assert_ne!(create_id_from_bytes(b"100"), create_id_from_bytes(b"101"));
}

#[test]
fn user_ids_are_fresh() {
    let a = OrderRequest::new(Side::Bid, Fixed::from_int(1), OrderType::Market);
    let b = OrderRequest::new(Side::Bid, Fixed::from_int(1), OrderType::Market);
    assert_ne!(a.id(), b.id());
}

#[test]
fn side_opposite_is_involution() {
    assert_eq!(Side::Ask.opposite(), Side::Bid);
    assert_eq!(Side::Bid.opposite().opposite(), Side::Bid);
}

#[test]
fn trade_order_fill_and_cancel() {
    let mut maker = TradeOrder::new(Fixed::from_int(10));
    let mut taker = TradeOrder::new(Fixed::from_int(4));
    let q = maker.filled_by(&mut taker, Fixed::from_int(99));
    assert_eq!(q, Fixed::from_int(4));
    assert_eq!(maker.remaining_qty, Fixed::from_int(6));
    assert_eq!(taker.remaining_qty, Fixed::from_int(0));
    assert_eq!(maker.fills.len(), 1);
    assert_eq!(maker.fills[0].order_id, taker.id);
    assert_eq!(maker.filled_quantity(), Fixed::from_int(4));
    maker.cancel(Fixed::from_int(100));
    assert_eq!(maker.remaining_qty, Fixed::from_int(0));
    assert_eq!(maker.cancelled_qty, Fixed::from_int(6));
    let mut qty = Fixed::from_int(3);
    let mut other = TradeOrder::new(Fixed::from_int(2));
    other.fill(&mut qty, Fixed::from_int(5), 7);
    assert_eq!(qty, Fixed::from_int(1));
    assert_eq!(other.remaining_qty, Fixed::from_int(0));
}

#[test]
fn merge_adds_quantities() {
    let req = OrderRequest::new_with_id(9, Side::Bid, Fixed::from_int(2), OrderType::system_level(Fixed::from_int(5)));
    let mut a = TradeOrder::from_request(req);
    let b = TradeOrder::from_request(req);
    assert!(a.mergable(&b));
    assert!(a.merage(b).is_none());
    assert_eq!(a.initial_qty, Fixed::from_int(4));
    let other = TradeOrder::from_request(OrderRequest::new_with_id(9, Side::Ask, Fixed::from_int(2), OrderType::system_level(Fixed::from_int(5))));
    assert!(a.merage(other).is_some());
}

#[test]
fn order_type_prices_and_labels() {
    assert_eq!(OrderType::Market.price(), None);
    assert_eq!(OrderType::fok(Fixed::from_int(3)).price(), Some(Fixed::from_int(3)));
    assert_eq!(OrderType::ioc(Fixed::from_int(3)).label(), "IOC");
    assert_eq!(OrderType::system_level(Fixed::from_int(3)).label(), "SystemLevel");
}

#[test]
fn request_validation() {
    let ok = OrderRequest::new_with_id(1, Side::Ask, Fixed::from_int(1), OrderType::limit(Fixed::from_int(1)));
    assert!(is_valid_request(&ok));
    let market = OrderRequest::new_with_id(1, Side::Ask, Fixed::from_int(1), OrderType::Market);
    assert!(is_valid_request(&market));
    let bad = OrderRequest::new_with_id(1, Side::Ask, Fixed::from_int(-1), OrderType::Market);
    assert!(!is_valid_request(&bad));
    let _ = OrderStatus::Open;
}

#[test]
fn user_ids_carry_version_seven() {
    let id = orderbooklib::create_order_id();
    assert_eq!((id >> 76) & 0xf, 7);
    assert_eq!((id >> 62) & 0x3, 2);
}

#[test]
fn result_from_order_derives_status() {
    let req = OrderRequest::new_with_id(3, Side::Ask, Fixed::from_int(2), OrderType::ioc(Fixed::from_int(3)));
    let r = OrderResult::from(TradeOrder::from_request(req));
    assert_eq!(r.status, OrderStatus::Cancelled);
    assert_eq!(r.remaining_qty, Fixed::from_int(2));
    let filled = TradeOrder::from_request(OrderRequest::new_with_id(4, Side::Ask, Fixed::from_int(0), OrderType::Market));
    assert_eq!(OrderResult::from(filled).status, OrderStatus::Filled);
}

#[test]
fn canonical_text_of_values() {
    assert_eq!(orderbooklib::fixed_text(Fixed::from_int(100)), b"100".to_vec());
    assert_eq!(orderbooklib::fixed_text(Fixed::from_units(-2_500_000_000)), b"-2.5".to_vec());
    assert_eq!(orderbooklib::fixed_text(Fixed::from_int(0)), b"0".to_vec());
    assert_eq!(orderbooklib::fixed_text(Fixed::from_units(1)), b"0.000000001".to_vec());
    assert_eq!(orderbooklib::fixed_text(Fixed::from_units(SCALE / 4)), b"0.25".to_vec());
}
