//! What holds of a market: adding and cancelling keep it well formed, the
//! trades of an order and what rests of it make up the order, trades are
//! made at the price of the resting order and best price first, and an order
//! that is added and cancelled leaves no trace.

use vstd::prelude::*;
use crate::book::laws::{
    lemma_add_orders, lemma_add_remove, lemma_remove_orders, lemma_remove_wf, lemma_sweep_trades,
};
use crate::book::view::{as_good, executes, level_ok, levels_without, rests_at, BookView};
use crate::level::{lemma_position_of, position_of};
use crate::market::view::{stale, still_rests, MarketView};
use crate::market::Index;
use crate::matcher::{has_id, maker_id, remains_of, taker_id, Matcher};
use crate::order::{crosses, Order, Side};
use crate::trade::total_quantity;
use crate::{Price, Symbol};

verus! {

/// An order that a level holds is found in it by its identity.
pub proof fn lemma_found(book: BookView, side: Side, price: Price, i: int)
    requires
        rests_at(book.levels(side), price, i),
    ensures
        book.find(side, price, book.levels(side)[price][i].id()) is Some,
{
    lemma_position_of(book.levels(side)[price], book.levels(side)[price][i].id());
}

/// An order that is found rests in the level, and has the identity it was
/// looked for by.
pub proof fn lemma_find(book: BookView, side: Side, price: Price, id: (u64, u64)) -> (i: int)
    requires
        book.find(side, price, id) is Some,
    ensures
        rests_at(book.levels(side), price, i),
        book.levels(side)[price][i].id() == id,
        book.find(side, price, id) == Some(book.levels(side)[price][i]),
{
    lemma_position_of(book.levels(side)[price], id);
    position_of(book.levels(side)[price], id).unwrap()
}

/// The books of a well-formed market determine its index: the index holds
/// the orders that rest, and nothing else.
pub proof fn lemma_index_determined(a: MarketView, b: MarketView)
    requires
        a.wf(),
        b.wf(),
        a.books == b.books,
    ensures
        a.indices == b.indices,
{
    assert forall|id: (u64, u64)| a.indices.contains_key(id) implies b.indices.contains_key(id)
        && b.indices[id] == a.indices[id] by {
        let index = a.indices[id];
        let i = lemma_find(a.books[index.symbol], index.side, index.price, id);
        assert(rests_at(a.books[index.symbol].levels(index.side), index.price, i));
        assert(rests_at(b.books[index.symbol].levels(index.side), index.price, i));
    }
    assert forall|id: (u64, u64)| b.indices.contains_key(id) implies a.indices.contains_key(
        id,
    ) by {
        let index = b.indices[id];
        let i = lemma_find(b.books[index.symbol], index.side, index.price, id);
        assert(rests_at(b.books[index.symbol].levels(index.side), index.price, i));
        assert(rests_at(a.books[index.symbol].levels(index.side), index.price, i));
    }
    assert(a.indices =~= b.indices);
}

/// After an order is added, each resting order is indexed with its place.
proof fn lemma_add_indexes_all<M: Matcher>(market: MarketView, order: Order)
    requires
        market.wf(),
        !market.indices.contains_key(order.id()),
    ensures
        market.add::<M>(order).indexes_all(),
{
    let symbol = order.symbol();
    let book = market.books[symbol];
    let added = book.add::<M>(order);
    let after = market.add::<M>(order);
    crate::book::laws::lemma_add_wf::<M>(book, order);
    lemma_add_orders::<M>(book, order);
    assert forall|s: Symbol, side: Side, p: Price, j: int| #[trigger]
        rests_at(after.books[s].levels(side), p, j) implies {
        let resting = after.books[s].levels(side)[p][j];
        after.indices.contains_key(resting.id()) && after.indices[resting.id()] == Index::of(
            resting,
        )
    } by {
        let resting = after.books[s].levels(side)[p][j];
        lemma_found(after.books[s], side, p, j);
        if s != symbol {
            assert(after.books[s] == market.books[s]);
            assert(rests_at(market.books[s].levels(side), p, j));
            assert(market.books[s].only(s));
            assert(market.indices[resting.id()] == Index::of(resting));
        } else if added.rested && side == order.side() && p == order.price() && j == 0 {
        } else {
            assert(rests_at(added.book.levels(side), p, j));
            let i = choose|i: int| #[trigger]
                rests_at(book.levels(side), p, i) && remains_of(book.levels(side)[p][i], resting);
            let was = book.levels(side)[p][i];
            assert(rests_at(market.books[s].levels(side), p, i));
            assert(market.indices[was.id()] == Index::of(was));
            assert(level_ok(book.levels(side)[p], p, side));
            assert(Index::of(was) == Index::of(resting));
            assert(was.side() == side && was.price() == p);
        }
    }
}

/// After an order is added, each entry of the index names a resting order.
proof fn lemma_add_names_resting<M: Matcher>(market: MarketView, order: Order)
    requires
        market.wf(),
        !market.indices.contains_key(order.id()),
    ensures
        market.add::<M>(order).names_resting(),
{
    let book = market.books[order.symbol()];
    let added = book.add::<M>(order);
    let after = market.add::<M>(order);
    lemma_add_orders::<M>(book, order);
    assert forall|id: (u64, u64)| #[trigger] after.indices.contains_key(id) implies {
        let index = after.indices[id];
        index.ids() == id && still_rests(after.books, index)
    } by {
        if added.rested && id == order.id() {
            lemma_found(added.book, order.side(), order.price(), 0);
        } else {
            assert(market.indices.contains_key(id));
        }
    }
}

/// After an order is added, no level holds two orders of one identity.
proof fn lemma_add_distinct<M: Matcher>(market: MarketView, order: Order)
    requires
        market.wf(),
        !market.indices.contains_key(order.id()),
    ensures
        forall|s: Symbol| (#[trigger] market.add::<M>(order).books[s]).distinct(),
{
    let symbol = order.symbol();
    let book = market.books[symbol];
    let after = market.add::<M>(order);
    assert(book.distinct());
    assert(levels_without(book.levels(order.side()), order.id())) by {
        assert forall|p: Price, i: int| #[trigger]
            rests_at(book.levels(order.side()), p, i) implies book.levels(
            order.side(),
        )[p][i].id() != order.id() by {
            assert(rests_at(market.books[symbol].levels(order.side()), p, i));
        }
    }
    lemma_add_orders::<M>(book, order);
    assert forall|s: Symbol| (#[trigger] after.books[s]).distinct() by {
        if s != symbol {
            assert(market.books[s].distinct());
        }
    }
}

/// Adding an order whose identity no resting order has leaves a well-formed
/// market well formed: every book is uncrossed and free of empty levels, and
/// the index holds exactly the orders that rest.
pub proof fn lemma_add_wf<M: Matcher>(market: MarketView, order: Order)
    requires
        market.wf(),
        !market.indices.contains_key(order.id()),
    ensures
        market.add::<M>(order).wf(),
{
    let symbol = order.symbol();
    let after = market.add::<M>(order);
    crate::book::laws::lemma_add_wf::<M>(market.books[symbol], order);
    assert forall|s: Symbol| (#[trigger] after.books[s]).wf() && after.books[s].only(s) by {
        if s != symbol {
            assert(after.books[s] == market.books[s]);
        }
    }
    lemma_add_indexes_all::<M>(market, order);
    lemma_add_names_resting::<M>(market, order);
    lemma_add_distinct::<M>(market, order);
}

/// Conservation: what the trades of an incoming order execute and what
/// rests of it make up the order. It rests, and is indexed, exactly where
/// the trades leave some of it open.
pub proof fn lemma_add_rests<M: Matcher>(market: MarketView, order: Order)
    requires
        market.wf(),
        !market.indices.contains_key(order.id()),
    ensures
        ({
            let executed = total_quantity(market.trades::<M>(order));
            let after = market.add::<M>(order);
            &&& executed <= order.quantity()
            &&& after.indices.contains_key(order.id()) <==> executed < order.quantity()
            &&& executed < order.quantity() ==> after.find(order.id()) == Some(
                order.reduced(executed),
            )
        }),
{
    let book = market.books[order.symbol()];
    let added = book.add::<M>(order);
    lemma_add_orders::<M>(book, order);
    if added.rested {
        assert(position_of(
            added.book.levels(order.side())[order.price()],
            order.id(),
        ) == Some(0int));
    }
}

/// The trades of an incoming order. Each trade executes some quantity
/// against an order that rested on the other side of the book, at the price
/// at which that order rested: the resting order sets the price. And the
/// trades go by price priority: bids are matched highest first and asks
/// lowest first, so that the price of a later trade is never better than
/// that of an earlier one.
pub proof fn lemma_trades<M: Matcher>(market: MarketView, order: Order)
    requires
        market.wf(),
    ensures
        ({
            let trades = market.trades::<M>(order);
            let other = order.side().opposite();
            let resting = market.books[order.symbol()].levels(other);
            &&& forall|k: int|
                0 <= k < trades.len() ==> {
                    let trade = #[trigger] trades[k];
                    &&& executes(trade, order, resting)
                    &&& exists|i: int|
                        0 <= i < resting[trade.price].len() && {
                            let maker = #[trigger] resting[trade.price][i];
                            maker.id() == maker_id(trade, order.side()) && maker.price()
                                == trade.price
                        }
                }
            &&& forall|k: int, l: int|
                0 <= k <= l < trades.len() ==> as_good(
                    other,
                    (#[trigger] trades[k]).price,
                    (#[trigger] trades[l]).price,
                )
        }),
{
    let other = order.side().opposite();
    let resting = market.books[order.symbol()].levels(other);
    let trades = market.trades::<M>(order);
    assert(market.books[order.symbol()].wf() && market.books[order.symbol()].only(order.symbol()));
    lemma_sweep_trades::<M>(order, resting);
    assert forall|k: int| 0 <= k < trades.len() implies {
        let trade = #[trigger] trades[k];
        exists|i: int|
            0 <= i < resting[trade.price].len() && {
                let maker = #[trigger] resting[trade.price][i];
                maker.id() == maker_id(trade, order.side()) && maker.price() == trade.price
            }
    } by {
        let trade = trades[k];
        let queue = resting[trade.price];
        assert(has_id(queue, maker_id(trade, order.side())));
        let i = choose|i: int|
            0 <= i < queue.len() && (#[trigger] queue[i]).id() == maker_id(trade, order.side());
        assert(level_ok(queue, trade.price, other));
        assert(queue[i].price() == trade.price);
    }
}

/// Round trip: where adding an order makes no trade, adding it and then
/// cancelling it leaves the market as it was, the books and the index.
pub proof fn lemma_add_cancel<M: Matcher>(market: MarketView, order: Order)
    requires
        market.wf(),
        !market.indices.contains_key(order.id()),
        market.trades::<M>(order).len() == 0,
    ensures
        market.add::<M>(order).cancel(order.id()) == market,
{
    let symbol = order.symbol();
    let book = market.books[symbol];
    let added = book.add::<M>(order);
    let after = market.add::<M>(order);
    let back = after.cancel(order.id());
    lemma_add_remove::<M>(book, order);
    lemma_add_orders::<M>(book, order);
    assert forall|id: (u64, u64)| market.indices.contains_key(id) implies still_rests(
        after.books,
        market.indices[id],
    ) by {
        let index = market.indices[id];
        let i = lemma_find(market.books[index.symbol], index.side, index.price, id);
        if index.symbol == symbol {
            assert(rests_at(book.levels(index.side), index.price, i));
            let resting = book.levels(index.side)[index.price][i];
            let queue = added.book.levels(index.side)[index.price];
            assert(queue.contains(resting));
            let j = choose|j: int| 0 <= j < queue.len() && queue[j] == resting;
            lemma_found(added.book, index.side, index.price, j);
        } else {
            assert(after.books[index.symbol] == market.books[index.symbol]);
        }
    }
    assert(back.indices =~= market.indices);
    assert(back.books =~= market.books);
}

/// Cancelling an order leaves a well-formed market well formed.
pub proof fn lemma_cancel_wf(market: MarketView, id: (u64, u64))
    requires
        market.wf(),
    ensures
        market.cancel(id).wf(),
        market.indices.contains_key(id) ==> market.find(id) is Some,
{
    if market.indices.contains_key(id) {
        let index = market.indices[id];
        let symbol = index.symbol;
        let book = market.books[symbol];
        let shorter = book.remove(index.side, index.price, id);
        let after = market.cancel(id);
        lemma_remove_wf(book, index.side, index.price, id);
        lemma_remove_orders(book, index.side, index.price, id);
        assert(book.distinct());
        assert forall|s: Symbol| (#[trigger] after.books[s]).wf() && after.books[s].only(s) by {
            if s != symbol {
                assert(after.books[s] == market.books[s]);
            }
        }
        assert forall|s: Symbol, side: Side, p: Price, j: int| #[trigger]
            rests_at(after.books[s].levels(side), p, j) implies {
            let order = after.books[s].levels(side)[p][j];
            after.indices.contains_key(order.id()) && after.indices[order.id()] == Index::of(order)
        } by {
            let order = after.books[s].levels(side)[p][j];
            if s != symbol {
                assert(rests_at(market.books[s].levels(side), p, j));
            } else {
                let i = choose|i: int| #[trigger]
                    rests_at(book.levels(side), p, i) && book.levels(side)[p][i] == order;
                assert(rests_at(market.books[s].levels(side), p, i));
                if order.id() == id {
                    lemma_found(shorter, side, p, j);
                }
            }
        }
        assert forall|other: (u64, u64)| #[trigger] after.indices.contains_key(other) implies {
            let at = after.indices[other];
            at.ids() == other && after.books[at.symbol].find(at.side, at.price, other) is Some
        } by {
            let at = market.indices[other];
            if at.symbol == symbol {
                let i = lemma_find(book, at.side, at.price, other);
                let order = book.levels(at.side)[at.price][i];
                assert(shorter.levels(at.side).contains_key(at.price) && shorter.levels(
                    at.side,
                )[at.price].contains(order));
                let j = choose|j: int|
                    0 <= j < shorter.levels(at.side)[at.price].len() && shorter.levels(
                        at.side,
                    )[at.price][j] == order;
                lemma_found(shorter, at.side, at.price, j);
            } else {
                assert(after.books[at.symbol] == market.books[at.symbol]);
            }
        }
        assert forall|s: Symbol| (#[trigger] after.books[s]).distinct() by {
            assert(market.books[s].distinct());
        }
    }
}

/// The index that is left when each stale entry among those that the trades
/// name is dropped holds exactly the orders that still rest.
pub proof fn lemma_kept<M: Matcher>(market: MarketView, order: Order, kept: Map<(u64, u64), Index>)
    requires
        market.wf(),
        forall|id: (u64, u64)| #[trigger]
            kept.contains_key(id) ==> market.indices.contains_key(id) && kept[id]
                == market.indices[id],
        forall|id: (u64, u64)|
            market.indices.contains_key(id) && !(#[trigger] kept.contains_key(id)) ==> stale::<M>(
                market,
                order,
                id,
            ),
        forall|k: int|
            0 <= k < market.trades::<M>(order).len() ==> {
                let id = maker_id(#[trigger] market.trades::<M>(order)[k], order.side());
                market.indices.contains_key(id) && stale::<M>(market, order, id)
                    ==> !kept.contains_key(id)
            },
    ensures
        kept == Map::new(
            |id: (u64, u64)|
                market.indices.contains_key(id) && still_rests(
                    market.add::<M>(order).books,
                    market.indices[id],
                ),
            |id: (u64, u64)| market.indices[id],
        ),
{
    let symbol = order.symbol();
    let book = market.books[symbol];
    let added = book.add::<M>(order);
    let books = market.add::<M>(order).books;
    let wanted = Map::new(
        |id: (u64, u64)| market.indices.contains_key(id) && still_rests(books, market.indices[id]),
        |id: (u64, u64)| market.indices[id],
    );
    lemma_add_orders::<M>(book, order);
    assert forall|id: (u64, u64)| kept.contains_key(id) <==> wanted.contains_key(id) by {
        if market.indices.contains_key(id) {
            let index = market.indices[id];
            assert(index.ids() == id);
            if kept.contains_key(id) && !still_rests(books, index) {
                let i = lemma_find(market.books[index.symbol], index.side, index.price, id);
                if index.symbol == symbol {
                    assert(rests_at(book.levels(index.side), index.price, i));
                    let resting = book.levels(index.side)[index.price][i];
                    if added.book.levels(index.side).contains_key(index.price)
                        && added.book.levels(index.side)[index.price].contains(resting) {
                        let j = choose|j: int|
                            0 <= j < added.book.levels(index.side)[index.price].len()
                                && added.book.levels(index.side)[index.price][j] == resting;
                        lemma_found(added.book, index.side, index.price, j);
                    } else {
                        let k = choose|k: int|
                            0 <= k < added.trades.len() && maker_id(
                                #[trigger] added.trades[k],
                                order.side(),
                            ) == resting.id();
                        assert(market.trades::<M>(order)[k] == added.trades[k]);
                        assert(stale::<M>(market, order, id));
                    }
                } else {
                    assert(books[index.symbol] == market.books[index.symbol]);
                }
            }
        }
    }
    assert(kept =~= wanted);
}

} // verus!
