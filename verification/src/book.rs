//! An order book: the bids and the asks for one security, each side a map
//! from price to the level at that price.

use vstd::prelude::*;
use std::collections::BTreeMap;
use crate::book::laws::{
    lemma_add_orders, lemma_add_wf, lemma_best_price, lemma_match_level, lemma_remove_wf,
    lemma_sweep, lemma_sweep_trades,
};
use crate::book::view::{
    best_price, executes, level_ok, levels_add, levels_find, levels_for, levels_ok,
    levels_remove, sweep, Levels,
};
use crate::level::{lemma_position_of, position_of, Level};
use crate::market::Index;
use crate::matcher::Matcher;
use crate::order::{Order, Side};
use crate::trade::{total_quantity, Trade};
use crate::Price;

pub mod laws;
pub mod view;

pub use view::BookView;

verus! {

/// The queues of the levels of one side of a book.
pub open spec fn queues(levels: Map<Price, Level>) -> Levels {
    levels.map_values(|level: Level| level@)
}

/// Whether each level of `levels` is filed under its own price and belongs
/// to `side`.
pub open spec fn filed(levels: Map<Price, Level>, side: Side) -> bool {
    forall|p: Price|
        levels.contains_key(p) ==> (#[trigger] levels[p]).price() == p && levels[p].side() == side
}

/// `BTreeMap::first_key_value` of std: the entry with the least key, or none
/// where the map is empty.
#[verifier::external_body]
fn first_level(levels: &BTreeMap<Price, Level>) -> (first: Option<(&Price, &Level)>)
    ensures
        match first {
            Some((price, level)) => {
                &&& levels@.contains_key(*price)
                &&& levels@[*price] == *level
                &&& forall|p: Price| levels@.contains_key(p) ==> *price <= p
            },
            None => forall|p: Price| !levels@.contains_key(p),
        },
{
    levels.first_key_value()
}

/// `BTreeMap::last_key_value` of std: the entry with the greatest key, or
/// none where the map is empty.
#[verifier::external_body]
fn last_level(levels: &BTreeMap<Price, Level>) -> (last: Option<(&Price, &Level)>)
    ensures
        match last {
            Some((price, level)) => {
                &&& levels@.contains_key(*price)
                &&& levels@[*price] == *level
                &&& forall|p: Price| levels@.contains_key(p) ==> p <= *price
            },
            None => forall|p: Price| !levels@.contains_key(p),
        },
{
    levels.last_key_value()
}

/// The level with the best price of one side of a book.
fn best_level(levels: &BTreeMap<Price, Level>, side: Side) -> (best: Option<(&Price, &Level)>)
    ensures
        match best {
            Some((price, level)) => {
                &&& best_price(queues(levels@), side) == Some(*price)
                &&& levels@.contains_key(*price)
                &&& levels@[*price] == *level
                &&& queues(levels@).contains_key(*price)
                &&& queues(levels@)[*price] == level@
            },
            None => best_price(queues(levels@), side).is_none() && queues(levels@)
                == Map::<Price, Seq<Order>>::empty(),
        },
{
    let best = match side {
        Side::Bid => last_level(levels),
        Side::Ask => first_level(levels),
    };
    proof {
        match best {
            Some((price, level)) => {
                lemma_best_price(queues(levels@), side, *price);
            },
            None => {
                assert(queues(levels@) =~= Map::<Price, Seq<Order>>::empty());
            },
        }
    }
    best
}

/// Crosses `order` against `levels`, which hold the side `side` of a book.
fn sweep_levels<M: Matcher>(
    levels: &mut BTreeMap<Price, Level>,
    order: &mut Order,
    matcher: &mut M,
    Ghost(side): Ghost<Side>,
) -> (trades: Vec<Trade>)
    requires
        side == old(order).side().opposite(),
        filed(old(levels)@, side),
        levels_ok(queues(old(levels)@), side),
        levels_for(queues(old(levels)@), old(order).symbol()),
    ensures
        filed(final(levels)@, side),
        trades@ == sweep::<M>(*old(order), queues(old(levels)@)).trades,
        *final(order) == sweep::<M>(*old(order), queues(old(levels)@)).taker,
        queues(final(levels)@) == sweep::<M>(*old(order), queues(old(levels)@)).levels,
{
    let mut trades: Vec<Trade> = Vec::new();
    let ghost whole = sweep::<M>(*order, queues(levels@));
    proof {
        assert(trades@ + whole.trades == whole.trades);
    }
    loop
        invariant
            side == order.side().opposite(),
            order.side() == old(order).side(),
            order.price() == old(order).price(),
            order.symbol() == old(order).symbol(),
            filed(levels@, side),
            levels_ok(queues(levels@), side),
            levels_for(queues(levels@), order.symbol()),
            whole == sweep::<M>(*old(order), queues(old(levels)@)),
            whole.trades == trades@ + sweep::<M>(*order, queues(levels@)).trades,
            whole.taker == sweep::<M>(*order, queues(levels@)).taker,
            whole.levels == sweep::<M>(*order, queues(levels@)).levels,
        ensures
            filed(levels@, side),
            whole == sweep::<M>(*old(order), queues(old(levels)@)),
            whole.trades == trades@,
            whole.taker == *order,
            whole.levels == queues(levels@),
        decreases levels@.dom().len(), order.quantity(),
    {
        if order.is_done() {
            proof {
                assert(trades@ + Seq::<Trade>::empty() == trades@);
            }
            break ;
        }
        let price = match best_level(levels, order.side().opposite()) {
            Some((price, _)) => *price,
            None => {
                proof {
                    assert(trades@ + Seq::<Trade>::empty() == trades@);
                }
                break ;
            },
        };
        let crossing = match order.side() {
            Side::Bid => order.price() >= price,
            Side::Ask => order.price() <= price,
        };
        if !crossing {
            proof {
                assert(trades@ + Seq::<Trade>::empty() == trades@);
            }
            break ;
        }
        let ghost taker = *order;
        let ghost before = levels@;
        let ghost so_far = trades@;
        proof {
            lemma_match_level::<M>(taker, queues(before), price);
        }
        let mut level = levels.remove(&price).unwrap();
        assert(level@ == queues(before)[price]);
        let mut made = matcher.match_order(order, &mut level);
        trades.append(&mut made);
        proof {
            let matched = M::matched(taker, queues(before)[price]);
            assert(queues(levels@) =~= queues(before).remove(price));
            assert(so_far + (matched.trades + sweep::<M>(*order, queues(levels@)).trades) == (so_far
                + matched.trades) + sweep::<M>(*order, queues(levels@)).trades);
        }
        if !level.is_empty() {
            levels.insert(price, level);
            proof {
                let matched = M::matched(taker, queues(before)[price]);
                assert(queues(levels@) =~= queues(before).insert(price, matched.resting));
                assert(order.is_done());
                assert(sweep::<M>(*order, queues(levels@)).trades == Seq::<Trade>::empty());
                assert(so_far + (matched.trades + Seq::<Trade>::empty()) == so_far
                    + matched.trades);
                assert(matched.trades + Seq::<Trade>::empty() == matched.trades);
            }
        }
    }
    trades
}

/// Puts `order` as the newest order into the level at its price, which is
/// made if it is not there.
fn rest_in(levels: &mut BTreeMap<Price, Level>, order: Order, Ghost(side): Ghost<Side>)
    requires
        side == order.side(),
        filed(old(levels)@, side),
    ensures
        filed(final(levels)@, side),
        queues(final(levels)@) == levels_add(queues(old(levels)@), order),
{
    let price = order.price();
    let mut level = match levels.remove(&price) {
        Some(level) => level,
        None => Level::new(price, order.side()),
    };
    level.add(order);
    levels.insert(price, level);
    proof {
        assert(queues(levels@) =~= levels_add(queues(old(levels)@), order));
    }
}

/// Takes the first order with the given identity out of the level at
/// `price`, and the level out of `levels` if that empties it.
fn remove_from(
    levels: &mut BTreeMap<Price, Level>,
    price: Price,
    user_id: u64,
    user_order_id: u64,
    Ghost(side): Ghost<Side>,
) -> (removed: Option<Order>)
    requires
        filed(old(levels)@, side),
        levels_ok(queues(old(levels)@), side),
    ensures
        filed(final(levels)@, side),
        queues(final(levels)@) == levels_remove(
            queues(old(levels)@),
            price,
            (user_id, user_order_id),
        ),
        removed == levels_find(queues(old(levels)@), price, (user_id, user_order_id)),
{
    match levels.remove(&price) {
        None => {
            proof {
                assert(queues(levels@) =~= queues(old(levels)@));
            }
            None
        },
        Some(level) => {
            let mut level = level;
            let ghost queue = level@;
            assert(queue == queues(old(levels)@)[price]);
            assert(level_ok(queue, price, side));
            let removed = level.remove(user_id, user_order_id);
            if !level.is_empty() {
                levels.insert(price, level);
            }
            proof {
                lemma_position_of(queue, (user_id, user_order_id));
                assert(queues(levels@) =~= levels_remove(
                    queues(old(levels)@),
                    price,
                    (user_id, user_order_id),
                ));
            }
            removed
        },
    }
}

/// An order book: the bids and the asks for one security.
///
/// Its view gives, for each side, the queue of each level by price.
pub struct Book {
    bids: BTreeMap<Price, Level>,
    asks: BTreeMap<Price, Level>,
}

impl View for Book {
    type V = BookView;

    closed spec fn view(&self) -> BookView {
        BookView { bids: queues(self.bids@), asks: queues(self.asks@) }
    }
}

impl Default for Book {
    /// A book in which no order rests.
    fn default() -> (book: Self)
        ensures
            book.wf(),
            book@.wf(),
            book@.is_empty(),
    {
        Self::new()
    }
}

impl Book {
    /// The book is in order: its view is well formed, and each level is
    /// filed under its own price on its own side.
    pub closed spec fn wf(&self) -> bool {
        &&& filed(self.bids@, Side::Bid)
        &&& filed(self.asks@, Side::Ask)
        &&& self@.wf()
    }

    /// A book in which no order rests.
    pub fn new() -> (book: Self)
        ensures
            book.wf(),
            book@.wf(),
            book@.is_empty(),
    {
        let book = Self { bids: BTreeMap::new(), asks: BTreeMap::new() };
        proof {
            assert(book@.bids =~= Map::<Price, Seq<Order>>::empty());
            assert(book@.asks =~= Map::<Price, Seq<Order>>::empty());
        }
        book
    }

    /// Drops every order of the book.
    pub fn clear(&mut self)
        ensures
            final(self).wf(),
            final(self)@.wf(),
            final(self)@.is_empty(),
    {
        self.bids.clear();
        self.asks.clear();
        proof {
            assert(self@.bids =~= Map::<Price, Seq<Order>>::empty());
            assert(self@.asks =~= Map::<Price, Seq<Order>>::empty());
        }
    }

    /// Adds `order` to the book: it is crossed against the other side under
    /// the strategy of `matcher`, and what is left of it rests. Returns
    /// whether it rests, and the trades in the order in which they were
    /// made.
    pub fn add<M: Matcher>(&mut self, order: Order, matcher: &mut M) -> (added: (bool, Vec<Trade>))
        requires
            old(self).wf(),
            old(self)@.only(order.symbol()),
        ensures
            final(self).wf(),
            final(self)@.wf(),
            final(self)@.only(order.symbol()),
            final(self)@ == old(self)@.add::<M>(order).book,
            added.0 == old(self)@.add::<M>(order).rested,
            added.1@ == old(self)@.add::<M>(order).trades,
            total_quantity(added.1@) <= order.quantity(),
            added.0 == (total_quantity(added.1@) < order.quantity()),
            added.0 ==> final(self)@.find(order.side(), order.price(), order.id()) == Some(
                order.reduced(total_quantity(added.1@)),
            ),
            forall|k: int|
                0 <= k < added.1@.len() ==> executes(
                    #[trigger] added.1@[k],
                    order,
                    old(self)@.levels(order.side().opposite()),
                ),
    {
        let ghost incoming = order;
        let mut order = order;
        proof {
            lemma_add_wf::<M>(self@, incoming);
            lemma_sweep::<M>(incoming, self@.levels(incoming.side().opposite()));
            lemma_add_orders::<M>(self@, incoming);
            lemma_sweep_trades::<M>(incoming, self@.levels(incoming.side().opposite()));
            let added = self@.add::<M>(incoming);
            if added.rested {
                assert(position_of(
                    added.book.levels(incoming.side())[incoming.price()],
                    incoming.id(),
                ) == Some(0int));
            }
        }
        let trades = self.try_execute(&mut order, matcher);
        if order.is_done() {
            return (false, trades);
        }
        assert(order.side() == incoming.side() && order.price() == incoming.price());
        let ghost crossed = self@;
        match order.side() {
            Side::Bid => rest_in(&mut self.bids, order, Ghost(Side::Bid)),
            Side::Ask => rest_in(&mut self.asks, order, Ghost(Side::Ask)),
        }
        assert(self@ == crossed.with_levels(
            incoming.side(),
            levels_add(crossed.levels(incoming.side()), order),
        ));
        assert(crossed.levels(incoming.side()) == old(self)@.levels(incoming.side()));
        (true, trades)
    }

    /// Takes the order that `index` names out of the book and returns it. A
    /// level that this empties leaves the book. Where no such order rests at
    /// the price and on the side that `index` gives, nothing changes.
    pub fn remove(&mut self, index: &Index) -> (removed: Option<Order>)
        requires
            old(self).wf(),
        ensures
            final(self).wf(),
            final(self)@.wf(),
            final(self)@ == old(self)@.remove(index.side, index.price, index.ids()),
            removed == old(self)@.find(index.side, index.price, index.ids()),
    {
        proof {
            lemma_remove_wf(self@, index.side, index.price, index.ids());
        }
        match index.side {
            Side::Bid => remove_from(
                &mut self.bids,
                index.price,
                index.user_id,
                index.user_order_id,
                Ghost(Side::Bid),
            ),
            Side::Ask => remove_from(
                &mut self.asks,
                index.price,
                index.user_id,
                index.user_order_id,
                Ghost(Side::Ask),
            ),
        }
    }

    /// The levels of the bids by price.
    pub fn bids(&self) -> (levels: &BTreeMap<Price, Level>)
        ensures
            queues(levels@) == self@.bids,
            self.wf() ==> filed(levels@, Side::Bid),
    {
        &self.bids
    }

    /// The levels of the asks by price.
    pub fn asks(&self) -> (levels: &BTreeMap<Price, Level>)
        ensures
            queues(levels@) == self@.asks,
            self.wf() ==> filed(levels@, Side::Ask),
    {
        &self.asks
    }

    /// Whether the order that `index` names rests in the book, at the price
    /// and on the side that `index` gives.
    pub fn contains(&self, index: &Index) -> (found: bool)
        ensures
            found == self@.find(index.side, index.price, index.ids()).is_some(),
    {
        let levels = match index.side {
            Side::Bid => &self.bids,
            Side::Ask => &self.asks,
        };
        match levels.get(&index.price) {
            Some(level) => level.contains(index.user_id, index.user_order_id),
            None => false,
        }
    }

    /// Crosses `order` against the other side of the book.
    fn try_execute<M: Matcher>(&mut self, order: &mut Order, matcher: &mut M) -> (trades: Vec<
        Trade,
    >)
        requires
            old(self).wf(),
            old(self)@.only(old(order).symbol()),
        ensures
            filed(final(self).bids@, Side::Bid),
            filed(final(self).asks@, Side::Ask),
            trades@ == sweep::<M>(
                *old(order),
                old(self)@.levels(old(order).side().opposite()),
            ).trades,
            *final(order) == sweep::<M>(
                *old(order),
                old(self)@.levels(old(order).side().opposite()),
            ).taker,
            final(self)@ == old(self)@.with_levels(
                old(order).side().opposite(),
                sweep::<M>(*old(order), old(self)@.levels(old(order).side().opposite())).levels,
            ),
    {
        match order.side() {
            Side::Bid => sweep_levels(&mut self.asks, order, matcher, Ghost(Side::Ask)),
            Side::Ask => sweep_levels(&mut self.bids, order, matcher, Ghost(Side::Bid)),
        }
    }

    /// The best price of `side`, and the quantity that the oldest order at
    /// that price has open.
    pub fn top_of_book(&self, side: Side) -> (top: (Price, u64))
        requires
            self.wf(),
            self@.levels(side) != Map::<Price, Seq<Order>>::empty(),
        ensures
            best_price(self@.levels(side), side) == Some(top.0),
            top.1 == self@.levels(side)[top.0].last().quantity(),
    {
        let best = match side {
            Side::Bid => best_level(&self.bids, Side::Bid),
            Side::Ask => best_level(&self.asks, Side::Ask),
        };
        match best {
            Some((price, level)) => {
                assert(level_ok(self@.levels(side)[*price], *price, side));
                let head = level.peek_head();
                (head.price(), head.quantity())
            },
            None => {
                proof {
                    assert(false);
                }
                (0, 0)
            },
        }
    }
}

} // verus!
