use orderbook::level::Level;
use orderbook::matcher::{FIFOMatcher, Matcher};
use orderbook::order::{Order, Side};
use orderbook::Symbol;
use string_interner::StringInterner;

fn aapl_handle(si: &mut StringInterner) -> Symbol {
    string_interner::Symbol::to_usize(si.get_or_intern_static("AAPL"))
}

fn make_test_level(symbol: Symbol) -> Level {
    let orders = [
        Order::with_ids(1, 101).limit_order(Side::Ask, symbol, 1, 5),
        Order::with_ids(2, 102).limit_order(Side::Ask, symbol, 1, 10),
        Order::with_ids(3, 103).limit_order(Side::Ask, symbol, 1, 7),
    ];
    let mut level = Level::new(1, Side::Ask);
    for order in orders {
        level.add(order);
    }
    level
}

#[test]
fn test_very_small_order() {
    let mut si = StringInterner::default();
    let aapl = aapl_handle(&mut si);
    let mut matcher = FIFOMatcher;
    let mut bid_order = Order::with_ids(4, 51).limit_order(Side::Bid, aapl, 1, 2);
    let mut level = make_test_level(aapl);
    let trades = matcher.match_order(&mut bid_order, &mut level);

    // Trades are correct
    assert_eq!(trades.len(), 1);
    assert_eq!(trades[0].price, 1);
    assert_eq!(trades[0].quantity, 2);
    assert_eq!(trades[0].user_id_buy, 4);
    assert_eq!(trades[0].user_order_id_buy, 51);
    assert_eq!(trades[0].user_id_sell, 1);
    assert_eq!(trades[0].user_order_id_sell, 101);

    // Remaining orders are correct
    assert_eq!(level.orders().len(), 3);
    assert_eq!(level.orders()[0].quantity(), 7);
    assert_eq!(level.orders()[1].quantity(), 10);
    assert_eq!(level.orders()[2].quantity(), 3);
}

#[test]
fn test_small_order() {
    let mut si = StringInterner::default();
    let aapl = aapl_handle(&mut si);
    let mut matcher = FIFOMatcher;
    let mut bid_order = Order::with_ids(4, 51).limit_order(Side::Bid, aapl, 1, 6);
    let mut level = make_test_level(aapl);
    let trades = matcher.match_order(&mut bid_order, &mut level);

    // Trades are correct
    assert_eq!(trades.len(), 2);
    assert_eq!(trades[0].price, 1);
    assert_eq!(trades[0].quantity, 5);
    assert_eq!(trades[0].user_id_buy, 4);
    assert_eq!(trades[0].user_order_id_buy, 51);
    assert_eq!(trades[0].user_id_sell, 1);
    assert_eq!(trades[0].user_order_id_sell, 101);
    assert_eq!(trades[1].price, 1);
    assert_eq!(trades[1].quantity, 1);
    assert_eq!(trades[1].user_id_buy, 4);
    assert_eq!(trades[1].user_order_id_buy, 51);
    assert_eq!(trades[1].user_id_sell, 2);
    assert_eq!(trades[1].user_order_id_sell, 102);

    // Remaining orders are correct
    assert_eq!(level.orders().len(), 2);
    assert_eq!(level.orders()[0].quantity(), 7);
    assert_eq!(level.orders()[1].quantity(), 9);
    assert!(bid_order.is_done());
}

#[test]
fn test_medium_order() {
    let mut si = StringInterner::default();
    let aapl = aapl_handle(&mut si);
    let mut matcher = FIFOMatcher;
    let mut bid_order = Order::with_ids(4, 51).limit_order(Side::Bid, aapl, 1, 15);
    let mut level = make_test_level(aapl);
    let trades = matcher.match_order(&mut bid_order, &mut level);

    // Trades are correct
    assert_eq!(trades.len(), 2);
    assert_eq!(trades[0].price, 1);
    assert_eq!(trades[0].quantity, 5);
    assert_eq!(trades[0].user_id_buy, 4);
    assert_eq!(trades[0].user_order_id_buy, 51);
    assert_eq!(trades[0].user_id_sell, 1);
    assert_eq!(trades[0].user_order_id_sell, 101);
    assert_eq!(trades[1].price, 1);
    assert_eq!(trades[1].quantity, 10);
    assert_eq!(trades[1].user_id_buy, 4);
    assert_eq!(trades[1].user_order_id_buy, 51);
    assert_eq!(trades[1].user_id_sell, 2);
    assert_eq!(trades[1].user_order_id_sell, 102);

    // Remaining orders are correct
    assert_eq!(level.orders().len(), 1);
    assert_eq!(level.orders()[0].quantity(), 7);
    assert!(bid_order.is_done());
}

#[test]
fn test_large_order() {
    let mut si = StringInterner::default();
    let aapl = aapl_handle(&mut si);
    let mut matcher = FIFOMatcher;
    let mut bid_order = Order::with_ids(4, 51).limit_order(Side::Bid, aapl, 1, 18);
    let mut level = make_test_level(aapl);
    let trades = matcher.match_order(&mut bid_order, &mut level);

    // Trades are correct
    assert_eq!(trades.len(), 3);
    assert_eq!(trades[0].price, 1);
    assert_eq!(trades[0].quantity, 5);
    assert_eq!(trades[0].user_id_buy, 4);
    assert_eq!(trades[0].user_order_id_buy, 51);
    assert_eq!(trades[0].user_id_sell, 1);
    assert_eq!(trades[0].user_order_id_sell, 101);
    assert_eq!(trades[1].price, 1);
    assert_eq!(trades[1].quantity, 10);
    assert_eq!(trades[1].user_id_buy, 4);
    assert_eq!(trades[1].user_order_id_buy, 51);
    assert_eq!(trades[1].user_id_sell, 2);
    assert_eq!(trades[1].user_order_id_sell, 102);
    assert_eq!(trades[2].price, 1);
    assert_eq!(trades[2].quantity, 3);
    assert_eq!(trades[2].user_id_buy, 4);
    assert_eq!(trades[2].user_order_id_buy, 51);
    assert_eq!(trades[2].user_id_sell, 3);
    assert_eq!(trades[2].user_order_id_sell, 103);

    // Remaining orders are correct
    assert_eq!(level.orders().len(), 1);
    assert_eq!(level.orders()[0].quantity(), 4);
    assert!(bid_order.is_done());
}

#[test]
fn test_very_large_order() {
    let mut si = StringInterner::default();
    let aapl = aapl_handle(&mut si);
    let mut matcher = FIFOMatcher;
    let mut bid_order = Order::with_ids(4, 51).limit_order(Side::Bid, aapl, 1, 22);
    let mut level = make_test_level(aapl);
    let trades = matcher.match_order(&mut bid_order, &mut level);

    // Trades are correct
    assert_eq!(trades.len(), 3);
    assert_eq!(trades[0].price, 1);
    assert_eq!(trades[0].quantity, 5);
    assert_eq!(trades[0].user_id_buy, 4);
    assert_eq!(trades[0].user_order_id_buy, 51);
    assert_eq!(trades[0].user_id_sell, 1);
    assert_eq!(trades[0].user_order_id_sell, 101);
    assert_eq!(trades[1].price, 1);
    assert_eq!(trades[1].quantity, 10);
    assert_eq!(trades[1].user_id_buy, 4);
    assert_eq!(trades[1].user_order_id_buy, 51);
    assert_eq!(trades[1].user_id_sell, 2);
    assert_eq!(trades[1].user_order_id_sell, 102);
    assert_eq!(trades[2].price, 1);
    assert_eq!(trades[2].quantity, 7);
    assert_eq!(trades[2].user_id_buy, 4);
    assert_eq!(trades[2].user_order_id_buy, 51);
    assert_eq!(trades[2].user_id_sell, 3);
    assert_eq!(trades[2].user_order_id_sell, 103);

    // Remaining orders are correct
    assert_eq!(level.orders().len(), 0);
    assert!(bid_order.is_done());
}

#[test]
fn test_gigantic_order() {
    let mut si = StringInterner::default();
    let aapl = aapl_handle(&mut si);
    let mut matcher = FIFOMatcher;
    let mut bid_order = Order::with_ids(4, 51).limit_order(Side::Bid, aapl, 1, 25);
    let mut level = make_test_level(aapl);
    let trades = matcher.match_order(&mut bid_order, &mut level);

    // Trades are correct
    assert_eq!(trades.len(), 3);
    assert_eq!(trades[0].price, 1);
    assert_eq!(trades[0].quantity, 5);
    assert_eq!(trades[0].user_id_buy, 4);
    assert_eq!(trades[0].user_order_id_buy, 51);
    assert_eq!(trades[0].user_id_sell, 1);
    assert_eq!(trades[0].user_order_id_sell, 101);
    assert_eq!(trades[1].price, 1);
    assert_eq!(trades[1].quantity, 10);
    assert_eq!(trades[1].user_id_buy, 4);
    assert_eq!(trades[1].user_order_id_buy, 51);
    assert_eq!(trades[1].user_id_sell, 2);
    assert_eq!(trades[1].user_order_id_sell, 102);
    assert_eq!(trades[2].price, 1);
    assert_eq!(trades[2].quantity, 7);
    assert_eq!(trades[2].user_id_buy, 4);
    assert_eq!(trades[2].user_order_id_buy, 51);
    assert_eq!(trades[2].user_id_sell, 3);
    assert_eq!(trades[2].user_order_id_sell, 103);

    // Remaining orders are correct
    assert_eq!(level.orders().len(), 0);
    assert_eq!(bid_order.quantity(), 3);
}

#[test]
fn order_that_is_done_makes_no_trade() {
    let mut matcher = FIFOMatcher;
    let mut bid_order = Order::with_ids(4, 51).limit_order(Side::Bid, 0, 1, 0);
    let mut level = make_test_level(0);
    let trades = matcher.match_order(&mut bid_order, &mut level);
    assert!(trades.is_empty());
    assert_eq!(level.len(), 3);
}

#[test]
fn empty_level_makes_no_trade() {
    let mut matcher = FIFOMatcher;
    let mut bid_order = Order::with_ids(4, 51).limit_order(Side::Bid, 0, 1, 9);
    let mut level = Level::new(1, Side::Ask);
    let trades = matcher.match_order(&mut bid_order, &mut level);
    assert!(trades.is_empty());
    assert_eq!(bid_order.quantity(), 9);
    assert!(level.is_empty());
}

#[test]
fn level_keeps_the_order_of_arrival() {
    let mut level = make_test_level(0);
    assert_eq!(level.price(), 1);
    assert_eq!(level.len(), 3);
    assert_eq!(level.peek_head().user_order_id(), 101);
    assert_eq!(level.orders()[0].user_order_id(), 103);
    let head = level.pop_head().unwrap();
    assert_eq!(head.user_order_id(), 101);
    assert_eq!(level.peek_head().user_order_id(), 102);
    level.head_mut().match_to(&mut Order::with_ids(9, 9).limit_order(Side::Bid, 0, 1, 4));
    assert_eq!(level.peek_head().quantity(), 6);
    assert_eq!(level.orders_mut().len(), 2);
}

#[test]
fn level_removes_by_identity() {
    let mut level = make_test_level(0);
    assert!(level.contains(2, 102));
    assert!(!level.contains(2, 101));
    let removed = level.remove(2, 102).unwrap();
    assert_eq!(removed.quantity(), 10);
    assert_eq!(level.len(), 2);
    assert_eq!(level.orders()[0].user_order_id(), 103);
    assert_eq!(level.orders()[1].user_order_id(), 101);
    assert!(level.remove(2, 102).is_none());
    assert_eq!(level.len(), 2);
    assert!(!level.contains(2, 102));
}

#[test]
fn pop_of_an_empty_level_gives_nothing() {
    let mut level = Level::new(5, Side::Bid);
    assert!(level.pop_head().is_none());
    assert!(level.is_empty());
}

#[test]
fn level_knows_its_price_and_side() {
    let level = Level::new(17, Side::Bid);
    assert_eq!(level.price(), 17);
    assert_eq!(level.side(), Side::Bid);
}
