use orderbooklib::{Fixed, MatchingEngine, OrderRequest, OrderStatus, OrderType, Side, TradingPair};

fn pair() -> TradingPair {
    TradingPair::new("BTC".to_owned(), "USD".to_owned())
}

#[test]
fn pair_text() {
    assert_eq!(pair().to_string(), "BTC_USD");
}

#[test]
fn markets_are_listed_once() {
    let mut e = MatchingEngine::new();
    assert!(e.add_market(pair()).is_ok());
    assert_eq!(e.add_market(pair()), Err("Market for BTC_USD already exists".to_owned()));
    assert!(e.market_exists(&pair()));
    assert_eq!(e.get_markets(), vec![pair()]);
    assert!(e.remove_market(&pair()).is_ok());
    assert_eq!(e.remove_market(&pair()), Err("Market for BTC_USD does not exist".to_owned()));
    assert!(!e.market_exists(&pair()));
}

#[test]
fn engine_forwards_to_book() {
    let mut e = MatchingEngine::default();
    e.add_market(pair()).unwrap();
    let bid = OrderRequest::new(Side::Bid, Fixed::from_int(3), OrderType::limit(Fixed::from_int(10)));
    let (res, _) = e.place_order(&pair(), bid).unwrap();
    assert_eq!(res.status, OrderStatus::Open);
    assert_eq!(e.get_depth(&pair()), Ok((0, 1)));
    assert_eq!(e.get_volume(&pair()), Ok(Fixed::from_int(3)));
    assert_eq!(e.get_best_bid_ask(&pair()), Ok((Some(Fixed::from_int(10)), None)));
    assert_eq!(e.get_spread(&pair()), Ok(None));
    assert_eq!(e.get_volume_at_price(&pair(), Side::Bid, Fixed::from_int(10)), Ok(Fixed::from_int(3)));
    assert_eq!(e.get_volume_at_price(&pair(), Side::Ask, Fixed::from_int(10)), Ok(Fixed::from_int(0)));
    let st = e.get_order_book_state(&pair()).unwrap();
    assert_eq!(st.bids, vec![(Fixed::from_int(10), Fixed::from_int(3))]);
    let cancelled = e.cancel_order(&pair(), bid.id()).unwrap().unwrap();
    assert_eq!(cancelled.status, OrderStatus::Cancelled);
    let other = TradingPair::new("ETH".to_owned(), "USD".to_owned());
    assert_eq!(e.get_depth(&other), Err("Market for ETH_USD does not exist".to_owned()));
    assert!(e.place_order(&other, bid).is_err());
}
