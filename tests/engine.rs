use trading_engine::stamps::stamp_from_millis;
use trading_engine::{Dec, Order, OrderBook, OrderError};

fn order(op: &str, id: &str, side: &str, price: &str, amount: &str) -> Order {
    Order {
        type_op: op.to_string(),
        account_id: format!("acct-{}", id),
        amount: amount.to_string(),
        order_id: id.to_string(),
        pair: "BTC/USDC".to_string(),
        limit_price: price.to_string(),
        side: side.to_string(),
        timestamp: 7,
    }
}

fn create(book: &mut OrderBook, id: &str, side: &str, price: &str, amount: &str) -> Vec<trading_engine::Trade> {
    book.process_order(order("CREATE", id, side, price, amount)).unwrap()
}

#[test]
fn time_priority_at_equal_price() {
    let mut book = OrderBook::new();
    create(&mut book, "a", "SELL", "100", "1");
    create(&mut book, "b", "SELL", "100", "1");
    let trades = create(&mut book, "c", "BUY", "100", "1.5");
    assert_eq!(trades.len(), 2);
    assert_eq!(trades[0].maker_order_id, "a");
    assert_eq!(trades[0].amount, "1");
    assert_eq!(trades[1].maker_order_id, "b");
    assert_eq!(trades[1].amount, "0.5");
    let snap = book.generate_order_book_output();
    assert_eq!(snap.len(), 1);
    assert_eq!(snap[0].order_id, "b");
    assert_eq!(snap[0].amount, "0.5");
    assert_eq!(snap[0].side, "SELL");
}

#[test]
fn sell_matches_highest_bid_first_at_maker_price() {
    let mut book = OrderBook::new();
    create(&mut book, "b1", "BUY", "100.5", "1");
    create(&mut book, "b2", "BUY", "101.25", "1");
    create(&mut book, "b3", "BUY", "99", "1");
    let trades = create(&mut book, "s", "SELL", "100", "1.5");
    assert_eq!(trades.len(), 2);
    assert_eq!(trades[0].maker_order_id, "b2");
    assert_eq!(trades[0].price, "101.25");
    assert_eq!(trades[1].maker_order_id, "b1");
    assert_eq!(trades[1].price, "100.5");
    assert_eq!(trades[1].amount, "0.5");
    assert_eq!(trades[0].taker_order_id, "s");
    assert_eq!(trades[0].pair, "BTC/USDC");
    assert_eq!(trades[0].trade_id.len(), 36);
    let snap = book.generate_order_book_output();
    assert_eq!(snap.len(), 2);
    assert_eq!(snap[0].order_id, "b3");
    assert_eq!(snap[1].order_id, "b1");
    assert_eq!(snap[1].amount, "0.5");
}

#[test]
fn remainder_rests_with_conserved_amount() {
    let mut book = OrderBook::new();
    create(&mut book, "s1", "SELL", "100", "0.3");
    create(&mut book, "s2", "SELL", "101", "0.2");
    create(&mut book, "s3", "SELL", "105", "4");
    let trades = create(&mut book, "b", "BUY", "101", "1.0");
    assert_eq!(trades.len(), 2);
    assert_eq!(trades[0].amount, "0.3");
    assert_eq!(trades[1].amount, "0.2");
    let snap = book.generate_order_book_output();
    assert_eq!(snap.len(), 2);
    assert_eq!(snap[0].order_id, "b");
    assert_eq!(snap[0].side, "BUY");
    assert_eq!(snap[0].amount, "0.5");
    assert_eq!(snap[0].price, "101");
    assert_eq!(snap[0].account_id, "acct-b");
    assert_eq!(snap[0].timestamp, 7);
    assert_eq!(snap[1].order_id, "s3");
    assert_eq!(book.trades.len(), 2);
}

#[test]
fn no_match_when_prices_do_not_cross() {
    let mut book = OrderBook::new();
    create(&mut book, "s", "SELL", "101", "1");
    let trades = create(&mut book, "b", "BUY", "100", "1");
    assert!(trades.is_empty());
    let snap = book.generate_order_book_output();
    assert_eq!(snap.len(), 2);
    assert_eq!(snap[0].side, "BUY");
    assert_eq!(snap[0].price, "100");
    assert_eq!(snap[1].side, "SELL");
    assert_eq!(snap[1].price, "101");
}

#[test]
fn snapshot_lists_bids_then_asks_in_ascending_price() {
    let mut book = OrderBook::new();
    create(&mut book, "b1", "BUY", "90", "1");
    create(&mut book, "b2", "BUY", "95", "1");
    create(&mut book, "b3", "BUY", "90.0", "2");
    create(&mut book, "s1", "SELL", "120", "1");
    create(&mut book, "s2", "SELL", "110", "1");
    let snap = book.generate_order_book_output();
    let ids: Vec<&str> = snap.iter().map(|e| e.order_id.as_str()).collect();
    assert_eq!(ids, vec!["b1", "b3", "b2", "s2", "s1"]);
    assert_eq!(snap[1].price, "90");
    let again = book.generate_order_book_output();
    assert_eq!(again.len(), snap.len());
    for (x, y) in snap.iter().zip(again.iter()) {
        assert_eq!(x.order_id, y.order_id);
        assert_eq!(x.amount, y.amount);
        assert_eq!(x.price, y.price);
        assert_eq!(x.side, y.side);
    }
}

#[test]
fn deleted_order_is_never_matched() {
    let mut book = OrderBook::new();
    create(&mut book, "s1", "SELL", "100", "1");
    create(&mut book, "s2", "SELL", "100", "1");
    let r = book.process_order(order("DELETE", "s1", "SELL", "100.00", "1"));
    assert_eq!(r.unwrap().len(), 0);
    let trades = create(&mut book, "b", "BUY", "100", "2");
    assert_eq!(trades.len(), 1);
    assert_eq!(trades[0].maker_order_id, "s2");
    let snap = book.generate_order_book_output();
    assert_eq!(snap.len(), 1);
    assert_eq!(snap[0].order_id, "b");
    assert_eq!(snap[0].amount, "1");
}

#[test]
fn delete_of_missing_order_is_a_no_op() {
    let mut book = OrderBook::new();
    create(&mut book, "s1", "SELL", "100", "1");
    let r = book.process_order(order("DELETE", "zz", "SELL", "100", "1"));
    assert_eq!(r.unwrap().len(), 0);
    let r = book.process_order(order("DELETE", "s1", "SELL", "99", "1"));
    assert_eq!(r.unwrap().len(), 0);
    assert_eq!(book.generate_order_book_output().len(), 1);
}

#[test]
fn rejected_instructions_change_nothing() {
    let mut book = OrderBook::new();
    create(&mut book, "s1", "SELL", "100", "1");
    assert_eq!(book.process_order(order("CREATE", "x", "BUY", "100", "abc")).unwrap_err(), OrderError::MalformedAmount);
    assert_eq!(book.process_order(order("CREATE", "x", "BUY", "1o0", "1")).unwrap_err(), OrderError::MalformedPrice);
    assert_eq!(book.process_order(order("CREATE", "x", "BUY", "100", "0")).unwrap_err(), OrderError::NonPositiveAmount);
    assert_eq!(book.process_order(order("CREATE", "x", "BUY", "100", "-1")).unwrap_err(), OrderError::NonPositiveAmount);
    assert_eq!(book.process_order(order("UPDATE", "x", "BUY", "100", "1")).unwrap_err(), OrderError::UnknownOperation);
    assert_eq!(book.process_order(order("DELETE", "s1", "SELL", "bad", "1")).unwrap_err(), OrderError::MalformedPrice);
    assert_eq!(
        book.process_order(order("CREATE", "x", "BUY", "100", "0.0000000000000000001")).unwrap_err(),
        OrderError::MalformedAmount
    );
    let snap = book.generate_order_book_output();
    assert_eq!(snap.len(), 1);
    assert_eq!(snap[0].amount, "1");
    assert!(book.trades.is_empty());
}

#[test]
fn create_with_unknown_side_is_ignored() {
    let mut book = OrderBook::new();
    let r = book.process_order(order("CREATE", "x", "HOLD", "100", "1")).unwrap();
    assert!(r.is_empty());
    assert!(book.generate_order_book_output().is_empty());
}

#[test]
fn ledger_accumulates_across_calls() {
    let mut book = OrderBook::new();
    create(&mut book, "s1", "SELL", "10", "1");
    create(&mut book, "s2", "SELL", "11", "1");
    create(&mut book, "b1", "BUY", "10", "1");
    create(&mut book, "b2", "BUY", "11", "1");
    assert_eq!(book.trades.len(), 2);
    assert_eq!(book.trades[0].maker_order_id, "s1");
    assert_eq!(book.trades[1].maker_order_id, "s2");
    assert_ne!(book.trades[0].trade_id, book.trades[1].trade_id);
}

#[test]
fn decimal_parse_render_and_subtract() {
    let a = Dec::parse("50000.0").unwrap();
    assert_eq!(a.mantissa, 500000);
    assert_eq!(a.scale, 1);
    assert_eq!(a.to_text(), "50000.0");
    let b = Dec::parse("0.25").unwrap();
    let d = a.sub(&b);
    assert_eq!(d.scale, 2);
    assert_eq!(d.to_text(), "49999.75");
    assert!(b.le(&a));
    assert!(!a.le(&b));
    assert_eq!(Dec::parse("1.00").unwrap().min(Dec::parse("1").unwrap()).to_text(), "1.00");
    assert!(Dec::parse("x").is_none());
    assert!(Dec::parse("10000000000").is_none());
    assert!(Dec::parse("9999999999.999999999999999999").is_some());
    assert!(Dec::parse("-9999999999").is_some());
    assert!(Dec::parse("-10000000000").is_none());
}

#[test]
fn stamp_from_clock_reading() {
    assert_eq!(stamp_from_millis(Some(1_700_000_000_123)), 1_700_000_000_123);
    assert_eq!(stamp_from_millis(Some(u64::MAX as u128 + 5)), 4);
    assert_eq!(stamp_from_millis(None), 0);
    assert!(trading_engine::get_current_timestamp() > 1_600_000_000_000);
}
