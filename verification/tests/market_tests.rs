use orderbook::market::Market;
use orderbook::matcher::FIFOMatcher;
use orderbook::order::{Order, Side};

const AAPL: usize = 0;
const GOOG: usize = 1;

fn bid(user_id: u64, user_order_id: u64, price: u64, quantity: u64) -> Order {
    Order::with_ids(user_id, user_order_id).limit_order(Side::Bid, AAPL, price, quantity)
}

fn ask(user_id: u64, user_order_id: u64, price: u64, quantity: u64) -> Order {
    Order::with_ids(user_id, user_order_id).limit_order(Side::Ask, AAPL, price, quantity)
}

/// Price, quantity and identity of each order of a side, best level first,
/// oldest order first within a level.
fn side_of(market: &Market<FIFOMatcher>, symbol: usize, side: Side) -> Vec<(u64, u64, u64, u64)> {
    let mut orders = Vec::new();
    if let Some(book) = market.book(symbol) {
        let levels = match side {
            Side::Bid => book.bids(),
            Side::Ask => book.asks(),
        };
        let mut prices: Vec<u64> = levels.keys().copied().collect();
        if side == Side::Bid {
            prices.reverse();
        }
        for price in prices {
            for order in levels.get(&price).unwrap().orders().iter().rev() {
                orders.push((price, order.quantity(), order.user_id(), order.user_order_id()));
            }
        }
    }
    orders
}

#[test]
fn simple_uncrossed_rest() {
    let mut market = Market::new(FIFOMatcher);
    let trades = market.add(bid(1, 101, 100, 15));
    assert!(trades.is_empty());
    assert_eq!(side_of(&market, AAPL, Side::Bid), vec![(100, 15, 1, 101)]);
    assert!(side_of(&market, AAPL, Side::Ask).is_empty());
    assert!(market.contains(1, 101));
}

#[test]
fn full_cross() {
    let mut market = Market::new(FIFOMatcher);
    assert!(market.add(ask(10, 110, 1, 5)).is_empty());
    assert!(market.add(ask(11, 111, 2, 5)).is_empty());
    let trades = market.add(bid(2, 52, 2, 7));
    assert_eq!(trades.len(), 2);
    assert_eq!((trades[0].price, trades[0].quantity), (1, 5));
    assert_eq!((trades[0].user_id_buy, trades[0].user_order_id_buy), (2, 52));
    assert_eq!((trades[0].user_id_sell, trades[0].user_order_id_sell), (10, 110));
    assert_eq!((trades[1].price, trades[1].quantity), (2, 2));
    assert_eq!((trades[1].user_id_buy, trades[1].user_order_id_buy), (2, 52));
    assert_eq!((trades[1].user_id_sell, trades[1].user_order_id_sell), (11, 111));
    assert!(side_of(&market, AAPL, Side::Bid).is_empty());
    assert_eq!(side_of(&market, AAPL, Side::Ask), vec![(2, 3, 11, 111)]);
    assert!(!market.contains(10, 110));
    assert!(market.contains(11, 111));
    assert!(!market.contains(2, 52));
}

#[test]
fn partial_rest() {
    let mut market = Market::new(FIFOMatcher);
    market.add(bid(10, 110, 1, 5));
    market.add(bid(11, 111, 2, 5));
    let trades = market.add(ask(2, 52, 1, 7));
    assert_eq!(trades.len(), 2);
    assert_eq!((trades[0].price, trades[0].quantity), (2, 5));
    assert_eq!((trades[0].user_id_buy, trades[0].user_order_id_buy), (11, 111));
    assert_eq!((trades[0].user_id_sell, trades[0].user_order_id_sell), (2, 52));
    assert_eq!((trades[1].price, trades[1].quantity), (1, 2));
    assert_eq!((trades[1].user_id_buy, trades[1].user_order_id_buy), (10, 110));
    assert_eq!((trades[1].user_id_sell, trades[1].user_order_id_sell), (2, 52));
    assert!(side_of(&market, AAPL, Side::Ask).is_empty());
    assert_eq!(side_of(&market, AAPL, Side::Bid), vec![(1, 3, 10, 110)]);
    assert!(market.contains(10, 110));
    assert!(!market.contains(11, 111));
    assert!(!market.contains(2, 52));
}

#[test]
fn time_priority_within_level() {
    let mut market = Market::new(FIFOMatcher);
    market.add(ask(1, 101, 1, 5));
    market.add(ask(2, 102, 1, 10));
    market.add(ask(3, 103, 1, 7));
    let trades = market.add(bid(4, 51, 1, 6));
    assert_eq!(trades.len(), 2);
    assert_eq!(trades[0].quantity, 5);
    assert_eq!((trades[0].user_id_sell, trades[0].user_order_id_sell), (1, 101));
    assert_eq!(trades[1].quantity, 1);
    assert_eq!((trades[1].user_id_sell, trades[1].user_order_id_sell), (2, 102));
    assert_eq!(side_of(&market, AAPL, Side::Ask), vec![(1, 9, 2, 102), (1, 7, 3, 103)]);
    assert!(!market.contains(1, 101));
    assert!(market.contains(2, 102));
    assert!(market.contains(3, 103));
}

#[test]
fn cancel_by_identity() {
    let mut market = Market::new(FIFOMatcher);
    market.add(bid(1, 101, 100, 15));
    let cancelled = market.cancel(1, 101).unwrap();
    assert_eq!(cancelled.user_id(), 1);
    assert_eq!(cancelled.user_order_id(), 101);
    assert_eq!(cancelled.quantity(), 15);
    assert_eq!(cancelled.price(), 100);
    assert!(side_of(&market, AAPL, Side::Bid).is_empty());
    assert!(!market.contains(1, 101));
    assert!(market.book(AAPL).unwrap().bids().is_empty());
}

#[test]
fn flush() {
    let mut market = Market::new(FIFOMatcher);
    market.add(bid(1, 101, 100, 15));
    market.add(ask(2, 102, 105, 15));
    market.add(Order::with_ids(3, 103).limit_order(Side::Ask, GOOG, 50, 20));
    market.clear();
    for symbol in [AAPL, GOOG] {
        assert!(side_of(&market, symbol, Side::Bid).is_empty());
        assert!(side_of(&market, symbol, Side::Ask).is_empty());
    }
    assert!(!market.contains(1, 101));
    assert!(!market.contains(2, 102));
    assert!(!market.contains(3, 103));
    assert!(market.cancel(1, 101).is_none());
}

#[test]
fn cancel_of_unknown_identity_changes_nothing() {
    let mut market = Market::new(FIFOMatcher);
    market.add(bid(1, 101, 100, 15));
    market.add(ask(2, 102, 105, 4));
    assert!(market.cancel(1, 102).is_none());
    assert!(market.cancel(9, 9).is_none());
    assert_eq!(side_of(&market, AAPL, Side::Bid), vec![(100, 15, 1, 101)]);
    assert_eq!(side_of(&market, AAPL, Side::Ask), vec![(105, 4, 2, 102)]);
    assert!(market.contains(1, 101));
    assert!(market.contains(2, 102));
}

#[test]
fn cancel_twice_finds_nothing_the_second_time() {
    let mut market = Market::new(FIFOMatcher);
    market.add(bid(1, 101, 100, 15));
    assert!(market.cancel(1, 101).is_some());
    assert!(market.cancel(1, 101).is_none());
}

#[test]
fn add_then_cancel_restores_the_market() {
    let mut market = Market::new(FIFOMatcher);
    market.add(bid(1, 101, 100, 15));
    market.add(bid(1, 102, 100, 5));
    market.add(ask(2, 201, 105, 4));
    let bids = side_of(&market, AAPL, Side::Bid);
    let asks = side_of(&market, AAPL, Side::Ask);

    assert!(market.add(bid(3, 301, 100, 9)).is_empty());
    assert!(market.contains(3, 301));
    assert_eq!(market.cancel(3, 301).unwrap().quantity(), 9);
    assert_eq!(side_of(&market, AAPL, Side::Bid), bids);
    assert_eq!(side_of(&market, AAPL, Side::Ask), asks);
    assert!(!market.contains(3, 301));
    assert!(market.contains(1, 101) && market.contains(1, 102) && market.contains(2, 201));

    assert!(market.add(ask(3, 302, 110, 9)).is_empty());
    assert_eq!(market.cancel(3, 302).unwrap().price(), 110);
    assert_eq!(side_of(&market, AAPL, Side::Bid), bids);
    assert_eq!(side_of(&market, AAPL, Side::Ask), asks);
}

#[test]
fn index_holds_exactly_the_resting_orders() {
    let mut market = Market::new(FIFOMatcher);
    market.add(ask(1, 1, 10, 5));
    market.add(ask(1, 2, 10, 5));
    market.add(ask(1, 3, 11, 5));
    market.add(bid(1, 4, 9, 5));
    let trades = market.add(bid(2, 1, 11, 12));
    assert_eq!(trades.len(), 3);
    // the first two asks are used up, the third is left with a part
    assert!(!market.contains(1, 1));
    assert!(!market.contains(1, 2));
    assert!(market.contains(1, 3));
    assert!(market.contains(1, 4));
    assert!(!market.contains(2, 1));
    assert_eq!(side_of(&market, AAPL, Side::Ask), vec![(11, 3, 1, 3)]);
    assert_eq!(side_of(&market, AAPL, Side::Bid), vec![(9, 5, 1, 4)]);
    // an identity that is free again can be used again
    assert!(market.add(ask(1, 1, 12, 1)).is_empty());
    assert!(market.contains(1, 1));
    assert_eq!(market.cancel(1, 1).unwrap().price(), 12);
}

#[test]
fn identities_differ_in_either_part() {
    let mut market = Market::new(FIFOMatcher);
    market.add(bid(1, 0, 5, 1));
    market.add(bid(0, 1, 6, 2));
    market.add(bid(0, u64::MAX, 7, 3));
    market.add(bid(u64::MAX, 0, 8, 4));
    assert!(market.contains(1, 0) && market.contains(0, 1));
    assert!(!market.contains(1, 1) && !market.contains(0, 0));
    assert_eq!(market.cancel(0, 1).unwrap().price(), 6);
    assert_eq!(market.cancel(1, 0).unwrap().price(), 5);
    assert_eq!(market.cancel(u64::MAX, 0).unwrap().price(), 8);
    assert_eq!(market.cancel(0, u64::MAX).unwrap().price(), 7);
    assert!(!market.contains(u64::MAX, u64::MAX));
}

#[test]
fn securities_have_books_of_their_own() {
    let mut market = Market::new(FIFOMatcher);
    market.add(bid(1, 101, 100, 15));
    let trades = market.add(Order::with_ids(2, 102).limit_order(Side::Ask, GOOG, 50, 20));
    assert!(trades.is_empty());
    let trades = market.add(ask(2, 103, 50, 14));
    assert_eq!(trades.len(), 1);
    assert_eq!(trades[0].symbol, AAPL);
    assert_eq!((trades[0].price, trades[0].quantity), (100, 14));
    assert_eq!(side_of(&market, AAPL, Side::Bid), vec![(100, 1, 1, 101)]);
    assert_eq!(side_of(&market, GOOG, Side::Ask), vec![(50, 20, 2, 102)]);
    assert!(market.book(7).is_none());
}

#[test]
fn market_is_uncrossed_and_without_empty_levels_after_each_add() {
    let mut market = Market::new(FIFOMatcher);
    let orders = [
        bid(1, 1, 10, 5),
        ask(1, 2, 12, 5),
        bid(1, 3, 12, 2),
        ask(1, 4, 9, 9),
        bid(1, 5, 11, 1),
        ask(1, 6, 11, 1),
        bid(1, 7, 13, 20),
        ask(1, 8, 13, 25),
    ];
    for order in orders {
        let incoming = order.quantity();
        let identity = (order.user_id(), order.user_order_id());
        let trades = market.add(order);
        let bids = side_of(&market, AAPL, Side::Bid);
        let asks = side_of(&market, AAPL, Side::Ask);
        if let (Some(best_bid), Some(best_ask)) = (bids.first(), asks.first()) {
            assert!(best_bid.0 < best_ask.0);
        }
        let book = market.book(AAPL).unwrap();
        assert!(book.bids().values().all(|level| !level.is_empty()));
        assert!(book.asks().values().all(|level| !level.is_empty()));
        for resting in bids.iter().chain(asks.iter()) {
            assert!(resting.1 > 0);
            assert!(market.contains(resting.2, resting.3));
        }
        let traded: u64 = trades.iter().map(|trade| trade.quantity).sum();
        let rests: u64 = bids
            .iter()
            .chain(asks.iter())
            .filter(|resting| (resting.2, resting.3) == identity)
            .map(|resting| resting.1)
            .sum();
        assert_eq!(traded + rests, incoming);
        assert_eq!(market.contains(identity.0, identity.1), rests > 0);
        assert!(trades.iter().all(|trade| trade.quantity > 0));
    }
}
