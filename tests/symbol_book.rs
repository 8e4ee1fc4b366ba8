use orderbooklib::symbol_book::{LogEntry, Order, OrderBook, Side};

#[test]
fn test_side() {
    assert_eq!(Side::new('B'), Some(Side::Buy));
    assert_eq!(Side::new('S'), Some(Side::Sell));
    assert_eq!(Side::new('T'), None);
    assert_eq!(Side::from('B'), Side::Buy);
    assert_eq!(Side::from('S'), Side::Sell);
    assert_eq!(Side::Buy.to_string(), "B".to_owned());
    assert_eq!(Side::Sell.to_string(), "S".to_owned());
}

#[test]
#[should_panic]
fn test_side_invalid() {
    let _ = Side::from('T');
}

#[test]
fn test_order_compare() {
    assert!(Order::new(Side::Sell, 0, 0, 0, 0) < Order::new(Side::Buy, 0, 0, 0, 0));
    assert!(Order::new(Side::Buy, 0, 0, 0, 0) > Order::new(Side::Sell, 0, 0, 0, 0));
    assert!(Order::new(Side::Buy, 0, 0, 100, 20) > Order::new(Side::Buy, 0, 1, 100, 20));
    assert!(Order::new(Side::Sell, 0, 0, 100, 20) < Order::new(Side::Sell, 0, 1, 100, 20));
    assert!(Order::new(Side::Buy, 0, 0, 100, 10) < Order::new(Side::Buy, 0, 0, 200, 5));
    assert!(Order::new(Side::Buy, 0, 0, 200, 5) > Order::new(Side::Buy, 0, 0, 100, 10));
}

#[test]
fn side_not_flips() {
    assert_eq!(!Side::Buy, Side::Sell);
    assert_eq!(!Side::Sell, Side::Buy);
}

#[test]
fn symbol_book_logs_top_changes() {
    let mut book = OrderBook::new();
    book.add("IBM", &Order::new(Side::Buy, 1, 1, 100, 10));
    book.add("IBM", &Order::new(Side::Buy, 2, 2, 99, 5));
    assert_eq!(book.top(Side::Buy, "IBM"), Some(Order::new(Side::Buy, 1, 1, 100, 10)));
    assert_eq!(book.top(Side::Sell, "IBM"), None);
    assert_eq!(book.top(Side::Buy, "AAPL"), None);
    book.cancel(1, 1);
    book.cancel(2, 2);
    book.cancel(7, 7);
    let log = book.get_logs("IBM").unwrap();
    assert_eq!(
        log,
        &vec![
            LogEntry::Acknowledge { user_id: 1, order_id: 1 },
            LogEntry::TopOfBook { side: Some(Side::Buy), price: 100, volume: 10 },
            LogEntry::Acknowledge { user_id: 2, order_id: 2 },
            LogEntry::Acknowledge { user_id: 1, order_id: 1 },
            LogEntry::TopOfBook { side: Some(Side::Buy), price: 99, volume: 5 },
            LogEntry::Acknowledge { user_id: 2, order_id: 2 },
            LogEntry::TopOfBook { side: None, price: 0, volume: 0 },
        ]
    );
    assert!(book.get_logs("AAPL").is_none());
}

#[test]
fn symbol_book_aggregates_user_run() {
    let mut book = OrderBook::new();
    book.add("X", &Order::new(Side::Sell, 4, 8, 50, 3));
    book.add("X", &Order::new(Side::Sell, 4, 6, 50, 4));
    assert_eq!(book.top(Side::Sell, "X"), Some(Order::new(Side::Sell, 4, 6, 50, 7)));
}

#[test]
fn symbol_book_rejects_crossing_order() {
    let mut book = OrderBook::new();
    book.add("X", &Order::new(Side::Buy, 1, 1, 100, 10));
    book.add("X", &Order::new(Side::Sell, 2, 2, 90, 10));
    book.add("X", &Order::new(Side::Buy, 3, 3, 95, 1));
    let log = book.get_logs("X").unwrap();
    assert_eq!(log.last(), Some(&LogEntry::Reject { user_id: 3, order_id: 3 }));
}
