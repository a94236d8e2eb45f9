//! Matching strategies: how an incoming order is paired with the orders of
//! one price level.

use vstd::prelude::*;
use crate::level::{all_at, Level};
use crate::order::{crosses, Order, Side};
use crate::trade::{total_quantity, Trade};
use crate::Price;

pub mod fifo;

pub use fifo::FIFOMatcher;

verus! {

/// What a strategy makes of an incoming order and the queue of a level: the
/// trades, in the order in which they are made, and the queue that is left.
pub struct Matched {
    pub trades: Seq<Trade>,
    pub resting: Seq<Order>,
}

/// The identity of the resting order of `trade`, where the incoming order
/// sat on `taker_side`.
pub open spec fn maker_id(trade: Trade, taker_side: Side) -> (u64, u64) {
    match taker_side {
        Side::Bid => (trade.user_id_sell, trade.user_order_id_sell),
        Side::Ask => (trade.user_id_buy, trade.user_order_id_buy),
    }
}

/// The identity of the incoming order of `trade`, where that order sat on
/// `taker_side`.
pub open spec fn taker_id(trade: Trade, taker_side: Side) -> (u64, u64) {
    match taker_side {
        Side::Bid => (trade.user_id_buy, trade.user_order_id_buy),
        Side::Ask => (trade.user_id_sell, trade.user_order_id_sell),
    }
}

/// Whether no two orders of `queue` have the same identity.
#[verifier::opaque]
pub open spec fn distinct_ids(queue: Seq<Order>) -> bool {
    forall|i: int, j: int|
        0 <= i < queue.len() && 0 <= j < queue.len() && (#[trigger] queue[i]).id() == (
        #[trigger] queue[j]).id() ==> i == j
}

/// Whether an order of `queue` has the identity `id`.
pub open spec fn has_id(queue: Seq<Order>, id: (u64, u64)) -> bool {
    exists|i: int| 0 <= i < queue.len() && (#[trigger] queue[i]).id() == id
}

/// Whether every order of `queue` is for the security `symbol` and has some
/// quantity open.
pub open spec fn all_live(queue: Seq<Order>, symbol: crate::Symbol) -> bool {
    forall|i: int|
        0 <= i < queue.len() ==> (#[trigger] queue[i]).symbol() == symbol && queue[i].quantity() > 0
}

/// Whether `after` is the order `before` with part of its quantity, but not
/// all of it, executed (or none).
pub open spec fn remains_of(before: Order, after: Order) -> bool {
    &&& 0 < after.quantity() <= before.quantity()
    &&& after == before.reduced((before.quantity() - after.quantity()) as nat)
}

/// Whether the order `taker` may be matched against a level at `price` on
/// `side` that holds `resting`: the level is on the other side, the prices
/// cross, and the resting orders are for the security of `taker` and sit at
/// that price on that side.
pub open spec fn matchable(taker: Order, price: Price, side: Side, resting: Seq<Order>) -> bool {
    &&& side == taker.side().opposite()
    &&& crosses(taker.side(), taker.price(), price)
    &&& all_at(resting, price, side)
    &&& forall|i: int| 0 <= i < resting.len() ==> (#[trigger] resting[i]).symbol() == taker.symbol()
}

/// The rules that every strategy keeps when it matches `taker` against the
/// queue `resting` of a level at `price` and makes `matched` of it.
pub open spec fn fair(taker: Order, price: Price, resting: Seq<Order>, matched: Matched) -> bool {
    // No more is executed than the incoming order has open.
    &&& total_quantity(matched.trades) <= taker.quantity()
    // The strategy stops only when the incoming order is done or the level
    // is used up.
    &&& total_quantity(matched.trades) == taker.quantity() || matched.resting.len() == 0
    // What is left in the queue was there before, with some quantity open.
    &&& forall|j: int|
        0 <= j < matched.resting.len() ==> exists|i: int|
            0 <= i < resting.len() && remains_of(resting[i], #[trigger] matched.resting[j])
    // No order is doubled.
    &&& distinct_ids(resting) ==> distinct_ids(matched.resting)
    // An order that no trade names is left as it was.
    &&& forall|i: int|
        0 <= i < resting.len() ==> matched.resting.contains(#[trigger] resting[i]) || exists|k: int|
            0 <= k < matched.trades.len() && maker_id(#[trigger] matched.trades[k], taker.side())
                == resting[i].id()
    // Each trade executes some quantity of the incoming order against an
    // order of the level, at the price of the level.
    &&& forall|k: int|
        0 <= k < matched.trades.len() ==> {
            &&& (#[trigger] matched.trades[k]).quantity > 0
            &&& matched.trades[k].price == price
            &&& matched.trades[k].symbol == taker.symbol()
            &&& taker_id(matched.trades[k], taker.side()) == taker.id()
            &&& has_id(resting, maker_id(matched.trades[k], taker.side()))
        }
}

/// A matching strategy: it decides which resting orders of a level an
/// incoming order trades with, and how much with each. What it decides
/// depends on the order and on the level alone.
pub trait Matcher {
    /// What the strategy makes of `taker` and of the queue `resting`, newest
    /// order first.
    spec fn matched(taker: Order, resting: Seq<Order>) -> Matched;

    /// The strategy is fair wherever the order may be matched against the
    /// level and each resting order has some quantity open.
    proof fn lemma_matched_fair(taker: Order, price: Price, side: Side, resting: Seq<Order>)
        requires
            matchable(taker, price, side, resting),
            all_live(resting, taker.symbol()),
        ensures
            fair(taker, price, resting, Self::matched(taker, resting)),
    ;

    /// Matches `order` against `level`. The trades come back; `order` loses
    /// what was executed, and `level` keeps what the strategy leaves of it.
    fn match_order(&mut self, order: &mut Order, level: &mut Level) -> (trades: Vec<Trade>)
        requires
            matchable(*old(order), old(level).price(), old(level).side(), old(level)@),
        ensures
            trades@ == Self::matched(*old(order), old(level)@).trades,
            final(level)@ == Self::matched(*old(order), old(level)@).resting,
            final(level).price() == old(level).price(),
            final(level).side() == old(level).side(),
            total_quantity(trades@) <= old(order).quantity(),
            *final(order) == old(order).reduced(total_quantity(trades@)),
    ;
}

} // verus!
