use orderbook::order::{Order, OrderBuilder, Side};
use string_interner::StringInterner;

fn handle(si: &mut StringInterner, name: &'static str) -> usize {
    string_interner::Symbol::to_usize(si.get_or_intern_static(name))
}

#[test]
fn test_equal_trade_quantity() {
    let mut si = StringInterner::default();
    let aapl = handle(&mut si, "AAPL");
    let mut bid_order = Order::with_ids(1, 101).limit_order(Side::Bid, aapl, 1, 10);
    let mut ask_order = Order::with_ids(2, 102).limit_order(Side::Ask, aapl, 1, 10);
    let trade = bid_order.match_to(&mut ask_order);
    assert_eq!(trade.quantity, 10);
    assert_eq!(bid_order.quantity(), 0);
    assert_eq!(ask_order.quantity(), 0);
}

#[test]
fn test_bid_quantity_higher() {
    let mut si = StringInterner::default();
    let aapl = handle(&mut si, "AAPL");
    let mut bid_order = Order::with_ids(1, 101).limit_order(Side::Bid, aapl, 1, 10);
    let mut ask_order = Order::with_ids(2, 102).limit_order(Side::Ask, aapl, 1, 7);
    let trade = bid_order.match_to(&mut ask_order);
    assert_eq!(trade.quantity, 7);
    assert_eq!(bid_order.quantity(), 3);
    assert_eq!(ask_order.quantity(), 0);
}

#[test]
fn test_bid_quantity_lower() {
    let mut si = StringInterner::default();
    let aapl = handle(&mut si, "AAPL");
    let mut bid_order = Order::with_ids(1, 101).limit_order(Side::Bid, aapl, 1, 7);
    let mut ask_order = Order::with_ids(2, 102).limit_order(Side::Ask, aapl, 1, 10);
    let trade = bid_order.match_to(&mut ask_order);
    assert_eq!(trade.quantity, 7);
    assert_eq!(bid_order.quantity(), 0);
    assert_eq!(ask_order.quantity(), 3);
}

#[test]
fn builder_keeps_every_field() {
    let order = OrderBuilder::new(7, 70).limit_order(Side::Ask, 3, 125, 40);
    assert_eq!(order.user_id(), 7);
    assert_eq!(order.user_order_id(), 70);
    assert_eq!(order.side(), Side::Ask);
    assert_eq!(order.symbol(), 3);
    assert_eq!(order.price(), 125);
    assert_eq!(order.quantity(), 40);
    assert!(!order.is_done());
}

#[test]
fn order_without_quantity_is_done() {
    let order = Order::with_ids(1, 1).limit_order(Side::Bid, 0, 10, 0);
    assert!(order.is_done());
}

#[test]
fn opposite_sides() {
    assert_eq!(Side::Bid.opposite(), Side::Ask);
    assert_eq!(Side::Ask.opposite(), Side::Bid);
}

#[test]
fn trade_is_priced_by_the_resting_order() {
    let mut taker = Order::with_ids(1, 101).limit_order(Side::Bid, 0, 12, 4);
    let mut maker = Order::with_ids(2, 102).limit_order(Side::Ask, 0, 9, 6);
    let trade = taker.match_to(&mut maker);
    assert_eq!(trade.price, 9);
    assert_eq!(trade.quantity, 4);
    assert_eq!(trade.symbol, 0);
    assert_eq!((trade.user_id_buy, trade.user_order_id_buy), (1, 101));
    assert_eq!((trade.user_id_sell, trade.user_order_id_sell), (2, 102));
    assert_eq!(taker.quantity(), 0);
    assert_eq!(maker.quantity(), 2);
}

#[test]
fn incoming_ask_trades_at_the_price_of_the_bid() {
    let mut taker = Order::with_ids(1, 101).limit_order(Side::Ask, 0, 9, 6);
    let mut maker = Order::with_ids(2, 102).limit_order(Side::Bid, 0, 12, 4);
    let trade = taker.match_to(&mut maker);
    assert_eq!(trade.price, 12);
    assert_eq!(trade.quantity, 4);
    assert_eq!((trade.user_id_buy, trade.user_order_id_buy), (2, 102));
    assert_eq!((trade.user_id_sell, trade.user_order_id_sell), (1, 101));
    assert_eq!(taker.quantity(), 2);
    assert_eq!(maker.quantity(), 0);
}
