//! The view of an order book, and what adding and removing an order mean for
//! it.

use vstd::prelude::*;
use crate::level::{all_at, position_of};
use crate::matcher::{distinct_ids, has_id, maker_id, taker_id, Matcher};
use crate::order::{crosses, Order, Side};
use crate::trade::{total_quantity, Trade};
use crate::{Price, Symbol};

verus! {

/// One side of a book as a map from price to the queue of the level at that
/// price, newest order first.
pub type Levels = Map<Price, Seq<Order>>;

/// The view of a book: its two sides.
pub struct BookView {
    pub bids: Levels,
    pub asks: Levels,
}

/// Whether a price of `a` is as good as a price of `b`, or better, for the
/// one who trades against an order on `side`: the higher bid, the lower ask.
pub open spec fn as_good(side: Side, a: Price, b: Price) -> bool {
    match side {
        Side::Bid => a >= b,
        Side::Ask => a <= b,
    }
}

/// Whether `price` is the best price of `levels`, a side of a book on
/// `side`: the highest bid, the lowest ask.
pub open spec fn is_best(levels: Levels, side: Side, price: Price) -> bool {
    &&& levels.contains_key(price)
    &&& forall|p: Price| levels.contains_key(p) ==> as_good(side, price, p)
}

/// The best price of `levels`, a side of a book on `side`; none where no
/// order rests there.
pub open spec fn best_price(levels: Levels, side: Side) -> Option<Price> {
    if exists|p: Price| is_best(levels, side, p) {
        Some(choose|p: Price| is_best(levels, side, p))
    } else {
        None
    }
}

/// Whether `queue` can be the queue of the level at `price` on `side`: it is
/// not empty, and each of its orders sits at that price on that side with
/// some quantity open.
pub open spec fn level_ok(queue: Seq<Order>, price: Price, side: Side) -> bool {
    &&& queue.len() > 0
    &&& all_at(queue, price, side)
    &&& forall|i: int| 0 <= i < queue.len() ==> (#[trigger] queue[i]).quantity() > 0
}

/// Whether `levels` can be the side `side` of a book: it has finitely many
/// levels, none of them empty.
pub open spec fn levels_ok(levels: Levels, side: Side) -> bool {
    &&& levels.dom().finite()
    &&& forall|p: Price| levels.contains_key(p) ==> level_ok(#[trigger] levels[p], p, side)
}

/// Whether each order of `levels` is for the security `symbol`.
pub open spec fn levels_for(levels: Levels, symbol: Symbol) -> bool {
    forall|p: Price, i: int|
        levels.contains_key(p) && 0 <= i < levels[p].len() ==> (#[trigger] levels[p][i]).symbol()
            == symbol
}

/// Whether no level of `levels` holds two orders of one identity.
pub open spec fn levels_distinct(levels: Levels) -> bool {
    forall|p: Price| levels.contains_key(p) ==> distinct_ids(#[trigger] levels[p])
}

/// Whether no order of `levels` has the identity `id`.
pub open spec fn levels_without(levels: Levels, id: (u64, u64)) -> bool {
    forall|p: Price, i: int| #[trigger] rests_at(levels, p, i) ==> levels[p][i].id() != id
}

/// Whether an order rests at the place `i` of the level at `price`.
pub open spec fn rests_at(levels: Levels, price: Price, i: int) -> bool {
    levels.contains_key(price) && 0 <= i < levels[price].len()
}

/// `levels` with `order` as the newest order of the level at its price.
pub open spec fn levels_add(levels: Levels, order: Order) -> Levels {
    if levels.contains_key(order.price()) {
        levels.insert(order.price(), seq![order] + levels[order.price()])
    } else {
        levels.insert(order.price(), seq![order])
    }
}

/// `levels` without the first order of the level at `price` that has the
/// identity `id`. A level that this empties leaves the side. Where there is
/// no such level or no such order, `levels` itself.
pub open spec fn levels_remove(levels: Levels, price: Price, id: (u64, u64)) -> Levels {
    if levels.contains_key(price) {
        match position_of(levels[price], id) {
            Some(i) => if levels[price].len() == 1 {
                levels.remove(price)
            } else {
                levels.insert(price, levels[price].remove(i))
            },
            None => levels,
        }
    } else {
        levels
    }
}

/// The first order of the level at `price` that has the identity `id`, if
/// there is such a level and such an order.
pub open spec fn levels_find(levels: Levels, price: Price, id: (u64, u64)) -> Option<Order> {
    if levels.contains_key(price) {
        match position_of(levels[price], id) {
            Some(i) => Some(levels[price][i]),
            None => None,
        }
    } else {
        None
    }
}

/// Whether `trade` executes some quantity of the incoming order `taker`
/// against an order that rests in `levels`, at the price at which that order
/// rests: the resting order sets the price of the trade.
pub open spec fn executes(trade: Trade, taker: Order, levels: Levels) -> bool {
    &&& trade.quantity > 0
    &&& trade.symbol == taker.symbol()
    &&& taker_id(trade, taker.side()) == taker.id()
    &&& crosses(taker.side(), taker.price(), trade.price)
    &&& levels.contains_key(trade.price)
    &&& has_id(levels[trade.price], maker_id(trade, taker.side()))
}

/// What comes of crossing an order against one side of a book: the trades,
/// what is left of the order, and what is left of the side.
pub struct Swept {
    pub trades: Seq<Trade>,
    pub taker: Order,
    pub levels: Levels,
}

/// Crosses `taker` against `levels`, the side of the book opposite to it,
/// under the strategy `M`.
///
/// As long as `taker` has quantity open and the best price of `levels`
/// crosses its price, `taker` is matched against the level at that price. A
/// level that this empties leaves the side, and the next best level is
/// taken. Price priority: no level is touched before every better one is
/// used up. A level that is not emptied ends the crossing: a fair strategy
/// leaves orders in a level only when the incoming order is done.
pub open spec fn sweep<M: Matcher>(taker: Order, levels: Levels) -> Swept
    decreases levels.dom().len(),
{
    let stop = Swept { trades: Seq::empty(), taker, levels };
    match best_price(levels, taker.side().opposite()) {
        Some(price) => if levels.dom().finite() && !taker.is_done() && crosses(
            taker.side(),
            taker.price(),
            price,
        ) {
            let matched = M::matched(taker, levels[price]);
            let left = taker.reduced(total_quantity(matched.trades));
            if matched.resting.len() == 0 {
                let rest = sweep::<M>(left, levels.remove(price));
                Swept { trades: matched.trades + rest.trades, taker: rest.taker, levels: rest.levels }
            } else {
                Swept {
                    trades: matched.trades,
                    taker: left,
                    levels: levels.insert(price, matched.resting),
                }
            }
        } else {
            stop
        },
        None => stop,
    }
}

/// What comes of adding an order to a book: the book after it, whether the
/// order rests in it, and the trades.
pub struct Added {
    pub book: BookView,
    pub rested: bool,
    pub trades: Seq<Trade>,
}

impl BookView {
    /// The side `side` of the book.
    pub open spec fn levels(self, side: Side) -> Levels {
        match side {
            Side::Bid => self.bids,
            Side::Ask => self.asks,
        }
    }

    /// The book with `levels` in place of its side `side`.
    pub open spec fn with_levels(self, side: Side, levels: Levels) -> BookView {
        match side {
            Side::Bid => BookView { bids: levels, ..self },
            Side::Ask => BookView { asks: levels, ..self },
        }
    }

    /// The book is uncrossed: every bid is below every ask.
    pub open spec fn uncrossed(self) -> bool {
        forall|bid: Price, ask: Price|
            #[trigger] self.bids.contains_key(bid) && #[trigger] self.asks.contains_key(ask) ==> bid
                < ask
    }

    /// No level is empty, each order rests at the level of its price and
    /// side with some quantity open, and the book is uncrossed.
    pub open spec fn wf(self) -> bool {
        &&& levels_ok(self.bids, Side::Bid)
        &&& levels_ok(self.asks, Side::Ask)
        &&& self.uncrossed()
    }

    /// Each order of the book is for the security `symbol`.
    pub open spec fn only(self, symbol: Symbol) -> bool {
        &&& levels_for(self.bids, symbol)
        &&& levels_for(self.asks, symbol)
    }

    /// No level of the book holds two orders of one identity.
    pub open spec fn distinct(self) -> bool {
        &&& levels_distinct(self.bids)
        &&& levels_distinct(self.asks)
    }

    /// No order rests in the book.
    pub open spec fn is_empty(self) -> bool {
        &&& self.bids == Map::<Price, Seq<Order>>::empty()
        &&& self.asks == Map::<Price, Seq<Order>>::empty()
    }

    /// The book without the first order of the level at `price` on `side`
    /// that has the identity `id`. A level that this empties leaves the
    /// book. Where there is no such level or no such order, the book itself.
    pub open spec fn remove(self, side: Side, price: Price, id: (u64, u64)) -> BookView {
        self.with_levels(side, levels_remove(self.levels(side), price, id))
    }

    /// The order that `remove` takes out of the book, if any.
    pub open spec fn find(self, side: Side, price: Price, id: (u64, u64)) -> Option<Order> {
        levels_find(self.levels(side), price, id)
    }

    /// Adds `order` to the book under the strategy `M`: the order is first
    /// crossed against the other side, and what is left of it, if anything,
    /// rests as the newest order of the level at its price.
    pub open spec fn add<M: Matcher>(self, order: Order) -> Added {
        let other = order.side().opposite();
        let swept = sweep::<M>(order, self.levels(other));
        let crossed = self.with_levels(other, swept.levels);
        if swept.taker.is_done() {
            Added { book: crossed, rested: false, trades: swept.trades }
        } else {
            Added {
                book: crossed.with_levels(
                    order.side(),
                    levels_add(self.levels(order.side()), swept.taker),
                ),
                rested: true,
                trades: swept.trades,
            }
        }
    }
}

} // verus!
