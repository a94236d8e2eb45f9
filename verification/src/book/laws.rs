//! What holds of an order book: what crossing, adding and removing do to its
//! levels, its orders and its trades.

use vstd::prelude::*;
use crate::book::view::{
    as_good, best_price, executes, is_best, level_ok, levels_add, levels_distinct, levels_for,
    levels_ok, levels_remove, levels_without, rests_at, sweep, BookView, Levels,
};
use crate::level::{lemma_position_of, position_of};
use crate::matcher::{
    all_live, distinct_ids, fair, has_id, maker_id, matchable, remains_of, taker_id, Matcher,
};
use crate::order::{crosses, Order, Side};
use crate::trade::{lemma_total_quantity_concat, total_quantity, Trade};
use crate::{Price, Symbol};

verus! {

/// A side has one best price at most.
pub proof fn lemma_best_price(levels: Levels, side: Side, price: Price)
    requires
        is_best(levels, side, price),
    ensures
        best_price(levels, side) == Some(price),
{
    let p = choose|p: Price| is_best(levels, side, p);
    assert(as_good(side, p, price) && as_good(side, price, p));
}

/// A side on which an order rests has a best price.
pub proof fn lemma_best_exists(levels: Levels, side: Side)
    requires
        levels.dom().finite(),
        levels.dom().len() > 0,
    ensures
        exists|p: Price| is_best(levels, side, p),
    decreases levels.dom().len(),
{
    let one = levels.dom().choose();
    let others = levels.remove(one);
    if others.dom().len() == 0 {
        assert forall|p: Price| levels.contains_key(p) implies as_good(side, one, p) by {
            if p != one {
                assert(others.dom().contains(p));
            }
        }
        assert(is_best(levels, side, one));
    } else {
        lemma_best_exists(others, side);
        let best = choose|p: Price| is_best(others, side, p);
        let top = if as_good(side, one, best) {
            one
        } else {
            best
        };
        assert forall|p: Price| levels.contains_key(p) implies as_good(side, top, p) by {
            if p != one {
                assert(others.contains_key(p));
            }
        }
        assert(is_best(levels, side, top));
    }
}

/// A side without a best price is empty.
pub proof fn lemma_no_best(levels: Levels, side: Side)
    requires
        levels.dom().finite(),
        best_price(levels, side).is_none(),
    ensures
        levels == Map::<Price, Seq<Order>>::empty(),
{
    if levels.dom().len() > 0 {
        lemma_best_exists(levels, side);
    }
    assert(levels =~= Map::<Price, Seq<Order>>::empty());
}

/// An order with some quantity open is what remains of itself.
pub proof fn lemma_remains_of_self(order: Order)
    requires
        order.quantity() > 0,
    ensures
        remains_of(order, order),
{
    assert(order.limit().reduced(0) == order.limit());
}

/// What matching against the level at `price` does to a side of a book that
/// is in order: the strategy is fair, what it leaves of the level is in order
/// again, and it leaves nothing of the level unless the incoming order is
/// done.
pub proof fn lemma_match_level<M: Matcher>(taker: Order, levels: Levels, price: Price)
    requires
        levels_ok(levels, taker.side().opposite()),
        levels_for(levels, taker.symbol()),
        levels.contains_key(price),
        crosses(taker.side(), taker.price(), price),
    ensures
        ({
            let side = taker.side().opposite();
            let matched = M::matched(taker, levels[price]);
            let left = taker.reduced(total_quantity(matched.trades));
            &&& matchable(taker, price, side, levels[price])
            &&& fair(taker, price, levels[price], matched)
            &&& matched.resting.len() > 0 ==> left.is_done()
            &&& levels_ok(levels.remove(price), side)
            &&& levels_for(levels.remove(price), taker.symbol())
            &&& matched.resting.len() > 0 ==> levels_ok(levels.insert(price, matched.resting), side)
            &&& levels_for(levels.insert(price, matched.resting), taker.symbol())
        }),
{
    let side = taker.side().opposite();
    let resting = levels[price];
    let matched = M::matched(taker, resting);
    assert(level_ok(resting, price, side));
    assert(matchable(taker, price, side, resting));
    assert(all_live(resting, taker.symbol()));
    M::lemma_matched_fair(taker, price, side, resting);
    assert forall|j: int| 0 <= j < matched.resting.len() implies {
        &&& (#[trigger] matched.resting[j]).side() == side
        &&& matched.resting[j].price() == price
        &&& matched.resting[j].symbol() == taker.symbol()
        &&& matched.resting[j].quantity() > 0
    } by {
        let i = choose|i: int| 0 <= i < resting.len() && remains_of(resting[i], matched.resting[j]);
        assert(resting[i].side() == side);
    }
    let after = levels.insert(price, matched.resting);
    assert forall|p: Price, i: int| after.contains_key(p) && 0 <= i < after[p].len() implies (
    #[trigger] after[p][i]).symbol() == taker.symbol() by {
        if p != price {
            assert(levels.contains_key(p) && after[p][i] == levels[p][i]);
        }
    }
    if matched.resting.len() > 0 {
        assert forall|p: Price| after.contains_key(p) implies level_ok(
            #[trigger] after[p],
            p,
            side,
        ) by {
            if p != price {
                assert(levels.contains_key(p) && after[p] == levels[p]);
            }
        }
    }
}

/// What crossing leaves of a side that is in order is in order again and
/// holds no level that was not there. The order loses what was executed, and
/// where it is not done no level is left that its price crosses.
pub proof fn lemma_sweep<M: Matcher>(taker: Order, levels: Levels)
    requires
        levels_ok(levels, taker.side().opposite()),
        levels_for(levels, taker.symbol()),
    ensures
        ({
            let swept = sweep::<M>(taker, levels);
            &&& levels_ok(swept.levels, taker.side().opposite())
            &&& levels_for(swept.levels, taker.symbol())
            &&& forall|p: Price| swept.levels.contains_key(p) ==> levels.contains_key(p)
            &&& total_quantity(swept.trades) <= taker.quantity()
            &&& swept.taker == taker.reduced(total_quantity(swept.trades))
            &&& !swept.taker.is_done() ==> forall|p: Price|
                swept.levels.contains_key(p) ==> !crosses(taker.side(), taker.price(), p)
        }),
    decreases levels.dom().len(),
{
    let side = taker.side().opposite();
    let swept = sweep::<M>(taker, levels);
    assert(total_quantity(Seq::<Trade>::empty()) == 0);
    match best_price(levels, side) {
        Some(price) => {
            assert(is_best(levels, side, price));
            if !taker.is_done() && crosses(taker.side(), taker.price(), price) {
                lemma_match_level::<M>(taker, levels, price);
                let matched = M::matched(taker, levels[price]);
                let left = taker.reduced(total_quantity(matched.trades));
                if matched.resting.len() == 0 {
                    let rest = sweep::<M>(left, levels.remove(price));
                    lemma_sweep::<M>(left, levels.remove(price));
                    lemma_total_quantity_concat(matched.trades, rest.trades);
                }
            } else {
                assert forall|p: Price| levels.contains_key(p) implies !crosses(
                    taker.side(),
                    taker.price(),
                    p,
                ) || taker.is_done() by {
                    assert(as_good(side, price, p));
                }
            }
        },
        None => {
            lemma_no_best(levels, side);
        },
    }
}

/// What crossing does to the single orders of a side that is in order. Each
/// order that is left was there before, at the same price, and has some of
/// its quantity left. No level gets two orders of one identity. And each
/// order that was there is either left as it was, or named by a trade as its
/// resting order.
pub proof fn lemma_sweep_orders<M: Matcher>(taker: Order, levels: Levels)
    requires
        levels_ok(levels, taker.side().opposite()),
        levels_for(levels, taker.symbol()),
    ensures
        ({
            let swept = sweep::<M>(taker, levels);
            &&& forall|p: Price, j: int| #[trigger]
                rests_at(swept.levels, p, j) ==> exists|i: int| #[trigger]
                    rests_at(levels, p, i) && remains_of(levels[p][i], swept.levels[p][j])
            &&& forall|p: Price|
                levels.contains_key(p) && #[trigger] swept.levels.contains_key(p) && distinct_ids(
                    levels[p],
                ) ==> distinct_ids(swept.levels[p])
            &&& forall|p: Price, i: int| #[trigger]
                rests_at(levels, p, i) ==> (swept.levels.contains_key(p)
                    && swept.levels[p].contains(levels[p][i])) || exists|k: int|
                    0 <= k < swept.trades.len() && maker_id(
                        #[trigger] swept.trades[k],
                        taker.side(),
                    ) == levels[p][i].id()
        }),
    decreases levels.dom().len(),
{
    let side = taker.side().opposite();
    let swept = sweep::<M>(taker, levels);
    let matching = match best_price(levels, side) {
        Some(price) => levels.dom().finite() && !taker.is_done() && crosses(
            taker.side(),
            taker.price(),
            price,
        ),
        None => false,
    };
    if matching {
        let price = best_price(levels, side).unwrap();
        assert(is_best(levels, side, price));
        lemma_match_level::<M>(taker, levels, price);
        let matched = M::matched(taker, levels[price]);
        let left = taker.reduced(total_quantity(matched.trades));
        if matched.resting.len() == 0 {
            let others = levels.remove(price);
            let rest = sweep::<M>(left, others);
            lemma_sweep_orders::<M>(left, others);
            lemma_sweep::<M>(left, others);
            assert forall|p: Price, j: int| #[trigger] rests_at(swept.levels, p, j) implies exists|
                i: int,
            | #[trigger]
                rests_at(levels, p, i) && remains_of(levels[p][i], swept.levels[p][j]) by {
                assert(rests_at(rest.levels, p, j));
                let i = choose|i: int| #[trigger]
                    rests_at(others, p, i) && remains_of(others[p][i], rest.levels[p][j]);
                assert(rests_at(levels, p, i));
            }
            assert forall|p: Price, i: int| #[trigger] rests_at(levels, p, i) implies (
            swept.levels.contains_key(p) && swept.levels[p].contains(levels[p][i])) || exists|
                k: int,
            |
                0 <= k < swept.trades.len() && maker_id(#[trigger] swept.trades[k], taker.side())
                    == levels[p][i].id() by {
                if p == price {
                    assert(!matched.resting.contains(levels[p][i]));
                    let k = choose|k: int|
                        0 <= k < matched.trades.len() && maker_id(
                            #[trigger] matched.trades[k],
                            taker.side(),
                        ) == levels[p][i].id();
                    assert(swept.trades[k] == matched.trades[k]);
                } else {
                    assert(rests_at(others, p, i));
                    if !(rest.levels.contains_key(p) && rest.levels[p].contains(others[p][i])) {
                        let k = choose|k: int|
                            0 <= k < rest.trades.len() && maker_id(
                                #[trigger] rest.trades[k],
                                left.side(),
                            ) == others[p][i].id();
                        assert(swept.trades[matched.trades.len() + k] == rest.trades[k]);
                    }
                }
            }
        } else {
            assert forall|p: Price, j: int| #[trigger] rests_at(swept.levels, p, j) implies exists|
                i: int,
            | #[trigger]
                rests_at(levels, p, i) && remains_of(levels[p][i], swept.levels[p][j]) by {
                if p == price {
                    let i = choose|i: int|
                        0 <= i < levels[price].len() && remains_of(
                            levels[price][i],
                            matched.resting[j],
                        );
                    assert(rests_at(levels, p, i));
                } else {
                    assert(level_ok(levels[p], p, side));
                    lemma_remains_of_self(levels[p][j]);
                    assert(rests_at(levels, p, j));
                }
            }
            assert forall|p: Price, i: int| #[trigger] rests_at(levels, p, i) implies (
            swept.levels.contains_key(p) && swept.levels[p].contains(levels[p][i])) || exists|
                k: int,
            |
                0 <= k < swept.trades.len() && maker_id(#[trigger] swept.trades[k], taker.side())
                    == levels[p][i].id() by {
                if p != price {
                    assert(swept.levels[p][i] == levels[p][i]);
                } else {
                    let order = levels[price][i];
                    assert(swept.levels[p] == matched.resting);
                    assert(swept.trades == matched.trades);
                    assert(matched.resting.contains(order) || exists|k: int|
                        0 <= k < matched.trades.len() && maker_id(
                            #[trigger] matched.trades[k],
                            taker.side(),
                        ) == order.id());
                }
            }
        }
    } else {
        assert(swept.levels == levels);
        assert forall|p: Price, j: int| #[trigger] rests_at(swept.levels, p, j) implies exists|
            i: int,
        | #[trigger] rests_at(levels, p, i) && remains_of(levels[p][i], swept.levels[p][j]) by {
            assert(level_ok(levels[p], p, side));
            lemma_remains_of_self(levels[p][j]);
            assert(rests_at(levels, p, j));
        }
        assert forall|p: Price, i: int| #[trigger] rests_at(levels, p, i) implies (
        swept.levels.contains_key(p) && swept.levels[p].contains(levels[p][i])) by {
            assert(swept.levels[p][i] == levels[p][i]);
        }
    }
}

/// The trades of crossing an order against a side that is in order.
///
/// Each trade executes some quantity of the incoming order against an order
/// that rested at the price of the trade, which the incoming order's price
/// crosses: the price of a trade is the resting order's price. And the
/// trades go by price priority: no trade is made at a price while a better
/// one is to be had, so that the prices of the trades only get worse, and no
/// level that is left is better than the price of any trade.
pub proof fn lemma_sweep_trades<M: Matcher>(taker: Order, levels: Levels)
    requires
        levels_ok(levels, taker.side().opposite()),
        levels_for(levels, taker.symbol()),
    ensures
        ({
            let swept = sweep::<M>(taker, levels);
            let side = taker.side().opposite();
            &&& forall|k: int|
                0 <= k < swept.trades.len() ==> executes(#[trigger] swept.trades[k], taker, levels)
            &&& forall|k: int, l: int|
                0 <= k <= l < swept.trades.len() ==> as_good(
                    side,
                    (#[trigger] swept.trades[k]).price,
                    (#[trigger] swept.trades[l]).price,
                )
            &&& forall|k: int, p: Price|
                0 <= k < swept.trades.len() && #[trigger] swept.levels.contains_key(p) ==> as_good(
                    side,
                    (#[trigger] swept.trades[k]).price,
                    p,
                )
        }),
    decreases levels.dom().len(),
{
    let side = taker.side().opposite();
    let swept = sweep::<M>(taker, levels);
    let matching = match best_price(levels, side) {
        Some(price) => levels.dom().finite() && !taker.is_done() && crosses(
            taker.side(),
            taker.price(),
            price,
        ),
        None => false,
    };
    if matching {
        let price = best_price(levels, side).unwrap();
        assert(is_best(levels, side, price));
        lemma_match_level::<M>(taker, levels, price);
        lemma_sweep::<M>(taker, levels);
        let matched = M::matched(taker, levels[price]);
        let left = taker.reduced(total_quantity(matched.trades));
        if matched.resting.len() == 0 {
            let others = levels.remove(price);
            let rest = sweep::<M>(left, others);
            lemma_sweep_trades::<M>(left, others);
            lemma_sweep::<M>(left, others);
            let n = matched.trades.len() as int;
            assert forall|k: int| 0 <= k < swept.trades.len() implies {
                let trade = #[trigger] swept.trades[k];
                &&& trade.quantity > 0
                &&& trade.symbol == taker.symbol()
                &&& taker_id(trade, taker.side()) == taker.id()
                &&& crosses(taker.side(), taker.price(), trade.price)
                &&& levels.contains_key(trade.price)
                &&& has_id(levels[trade.price], maker_id(trade, taker.side()))
                &&& as_good(side, price, trade.price)
                &&& k < n ==> trade.price == price
            } by {
                if k < n {
                    assert(swept.trades[k] == matched.trades[k]);
                } else {
                    assert(swept.trades[k] == rest.trades[k - n]);
                    assert(others.contains_key(rest.trades[k - n].price));
                }
            }
            assert forall|k: int, l: int| 0 <= k <= l < swept.trades.len() implies as_good(
                side,
                (#[trigger] swept.trades[k]).price,
                (#[trigger] swept.trades[l]).price,
            ) by {
                if k >= n {
                    assert(swept.trades[k] == rest.trades[k - n]);
                    assert(swept.trades[l] == rest.trades[l - n]);
                }
            }
            assert forall|k: int, p: Price|
                0 <= k < swept.trades.len() && #[trigger] swept.levels.contains_key(
                    p,
                ) implies as_good(side, (#[trigger] swept.trades[k]).price, p) by {
                if k >= n {
                    assert(swept.trades[k] == rest.trades[k - n]);
                } else {
                    assert(others.contains_key(p) && levels.contains_key(p));
                }
            }
        } else {
            assert forall|k: int, p: Price|
                0 <= k < swept.trades.len() && #[trigger] swept.levels.contains_key(
                    p,
                ) implies as_good(side, (#[trigger] swept.trades[k]).price, p) by {
                assert(levels.contains_key(p));
            }
        }
    }
}

/// Crossing that makes no trade changes nothing.
pub proof fn lemma_sweep_without_trades<M: Matcher>(taker: Order, levels: Levels)
    requires
        levels_ok(levels, taker.side().opposite()),
        levels_for(levels, taker.symbol()),
        sweep::<M>(taker, levels).trades.len() == 0,
    ensures
        sweep::<M>(taker, levels).levels == levels,
        sweep::<M>(taker, levels).taker == taker,
{
    let side = taker.side().opposite();
    let matching = match best_price(levels, side) {
        Some(price) => levels.dom().finite() && !taker.is_done() && crosses(
            taker.side(),
            taker.price(),
            price,
        ),
        None => false,
    };
    if matching {
        let price = best_price(levels, side).unwrap();
        assert(is_best(levels, side, price));
        lemma_match_level::<M>(taker, levels, price);
        let matched = M::matched(taker, levels[price]);
        assert(matched.trades.len() == 0);
        assert(total_quantity(matched.trades) == 0);
        assert(level_ok(levels[price], price, side));
        assert(matched.resting.contains(levels[price][0]));
        assert(false);
    }
}

/// Adding an order to a book that is well formed and holds only orders for
/// the security of the order leaves such a book: no level is empty, and it
/// is uncrossed.
pub proof fn lemma_add_wf<M: Matcher>(book: BookView, order: Order)
    requires
        book.wf(),
        book.only(order.symbol()),
    ensures
        book.add::<M>(order).book.wf(),
        book.add::<M>(order).book.only(order.symbol()),
{
    let side = order.side();
    let other = side.opposite();
    let swept = sweep::<M>(order, book.levels(other));
    lemma_sweep::<M>(order, book.levels(other));
    let crossed = book.with_levels(other, swept.levels);
    assert forall|bid: Price, ask: Price| #[trigger]
        crossed.bids.contains_key(bid) && #[trigger] crossed.asks.contains_key(ask) implies bid
        < ask by {
        assert(book.bids.contains_key(bid) && book.asks.contains_key(ask));
    }
    assert(crossed.wf());
    assert(crossed.only(order.symbol()));
    if !swept.taker.is_done() {
        let own = book.levels(side);
        let rested = levels_add(own, swept.taker);
        let price = order.price();
        assert forall|p: Price| rested.contains_key(p) implies level_ok(
            #[trigger] rested[p],
            p,
            side,
        ) by {
            if p != price {
                assert(own.contains_key(p) && rested[p] == own[p]);
            } else if own.contains_key(price) {
                assert(level_ok(own[price], price, side));
            }
        }
        assert forall|p: Price, i: int| rested.contains_key(p) && 0 <= i < rested[p].len() implies (
        #[trigger] rested[p][i]).symbol() == order.symbol() by {
            if p != price {
                assert(own.contains_key(p) && rested[p][i] == own[p][i]);
            } else if own.contains_key(price) && i > 0 {
                assert(rested[p][i] == own[p][i - 1]);
            }
        }
        let after = crossed.with_levels(side, rested);
        assert forall|bid: Price, ask: Price| #[trigger]
            after.bids.contains_key(bid) && #[trigger] after.asks.contains_key(ask) implies bid
            < ask by {
            if side == Side::Bid {
                if bid == price {
                    assert(swept.levels.contains_key(ask));
                } else {
                    assert(book.bids.contains_key(bid) && book.asks.contains_key(ask));
                }
            } else {
                if ask == price {
                    assert(swept.levels.contains_key(bid));
                } else {
                    assert(book.bids.contains_key(bid) && book.asks.contains_key(ask));
                }
            }
        }
    }
}

/// What adding an order does to the single orders of a book that is well
/// formed and holds only orders for the security of the order.
///
/// Each order of the book after it is what is left of the incoming order, as
/// the newest of the level at its price, or was there before, at the same
/// price on the same side, and has some of its quantity left. Each order
/// that was there is either left as it was, or it rested on the other side
/// and a trade names it. And where no level held two orders of one identity,
/// nor the side of the incoming order one of its identity, no level does
/// after it.
pub proof fn lemma_add_orders<M: Matcher>(book: BookView, order: Order)
    requires
        book.wf(),
        book.only(order.symbol()),
    ensures
        ({
            let added = book.add::<M>(order);
            let left = order.reduced(total_quantity(added.trades));
            &&& total_quantity(added.trades) <= order.quantity()
            &&& added.rested == (total_quantity(added.trades) < order.quantity())
            &&& added.rested ==> rests_at(added.book.levels(order.side()), order.price(), 0)
                && added.book.levels(order.side())[order.price()][0] == left
            &&& forall|side: Side, p: Price, j: int| #[trigger]
                rests_at(added.book.levels(side), p, j) ==> (added.rested && side == order.side()
                    && p == order.price() && j == 0) || exists|i: int| #[trigger]
                    rests_at(book.levels(side), p, i) && remains_of(
                        book.levels(side)[p][i],
                        added.book.levels(side)[p][j],
                    )
            &&& forall|side: Side, p: Price, i: int| #[trigger]
                rests_at(book.levels(side), p, i) ==> (added.book.levels(side).contains_key(p)
                    && added.book.levels(side)[p].contains(book.levels(side)[p][i])) || (side
                    == order.side().opposite() && exists|k: int|
                    0 <= k < added.trades.len() && maker_id(
                        #[trigger] added.trades[k],
                        order.side(),
                    ) == book.levels(side)[p][i].id())
            &&& book.distinct() && levels_without(book.levels(order.side()), order.id())
                ==> added.book.distinct()
        }),
{
    let side = order.side();
    let other = side.opposite();
    let swept = sweep::<M>(order, book.levels(other));
    lemma_sweep::<M>(order, book.levels(other));
    lemma_sweep_orders::<M>(order, book.levels(other));
    let added = book.add::<M>(order);
    let own = book.levels(side);
    let price = order.price();
    assert(added.book.levels(other) == swept.levels);
    if swept.taker.is_done() {
        assert(added.book.levels(side) == own);
    } else {
        assert(added.book.levels(side) == levels_add(own, swept.taker));
    }
    assert forall|at: Side, p: Price, j: int| #[trigger]
        rests_at(added.book.levels(at), p, j) implies (added.rested && at == side && p == price && j
        == 0) || exists|i: int| #[trigger]
        rests_at(book.levels(at), p, i) && remains_of(
            book.levels(at)[p][i],
            added.book.levels(at)[p][j],
        ) by {
        if at == other {
            assert(rests_at(swept.levels, p, j));
        } else if added.rested && p == price {
            if j > 0 {
                assert(level_ok(own[p], p, side));
                lemma_remains_of_self(own[p][j - 1]);
                assert(rests_at(book.levels(at), p, j - 1));
            }
        } else {
            assert(level_ok(own[p], p, side));
            lemma_remains_of_self(own[p][j]);
            assert(rests_at(book.levels(at), p, j));
        }
    }
    assert forall|at: Side, p: Price, i: int| #[trigger]
        rests_at(book.levels(at), p, i) implies (added.book.levels(at).contains_key(p)
        && added.book.levels(at)[p].contains(book.levels(at)[p][i])) || (at == other && exists|
        k: int,
    |
        0 <= k < added.trades.len() && maker_id(#[trigger] added.trades[k], order.side())
            == book.levels(at)[p][i].id()) by {
        if at == other {
            assert(rests_at(book.levels(other), p, i));
        } else if added.rested && p == price {
            assert(added.book.levels(at)[p][i + 1] == own[p][i]);
        } else {
            assert(added.book.levels(at)[p][i] == own[p][i]);
        }
    }
    if levels_distinct(book.bids) && levels_distinct(book.asks) && levels_without(own, order.id()) {
        reveal(distinct_ids);
        assert forall|at: Side, p: Price| added.book.levels(at).contains_key(p) implies distinct_ids(
            #[trigger] added.book.levels(at)[p],
        ) by {
            assert(levels_distinct(book.levels(at)));
            if at == other {
                assert(book.levels(at).contains_key(p));
            } else if added.rested && p == price {
                let queue = added.book.levels(at)[p];
                assert forall|i: int, j: int|
                    0 <= i < queue.len() && 0 <= j < queue.len() && (#[trigger] queue[i]).id() == (
                    #[trigger] queue[j]).id() implies i == j by {
                    if i > 0 {
                        assert(rests_at(own, p, i - 1) && queue[i] == own[p][i - 1]);
                    }
                    if j > 0 {
                        assert(rests_at(own, p, j - 1) && queue[j] == own[p][j - 1]);
                    }
                }
            }
        }
        assert(levels_distinct(added.book.levels(Side::Bid)));
        assert(levels_distinct(added.book.levels(Side::Ask)));
    }
}

/// Round trip: an order that is added without a trade and then removed
/// leaves the book as it was.
pub proof fn lemma_add_remove<M: Matcher>(book: BookView, order: Order)
    requires
        book.wf(),
        book.only(order.symbol()),
        book.add::<M>(order).trades.len() == 0,
    ensures
        !book.add::<M>(order).rested ==> book.add::<M>(order).book == book,
        book.add::<M>(order).rested ==> book.add::<M>(order).book.remove(
            order.side(),
            order.price(),
            order.id(),
        ) == book,
{
    let side = order.side();
    let other = side.opposite();
    let price = order.price();
    lemma_sweep_without_trades::<M>(order, book.levels(other));
    let added = book.add::<M>(order);
    let own = book.levels(side);
    if added.rested {
        let rested = levels_add(own, order);
        assert(rested[price][0] == order);
        assert(position_of(rested[price], order.id()) == Some(0int));
        if own.contains_key(price) {
            assert(level_ok(own[price], price, side));
            assert(rested[price].remove(0) =~= own[price]);
        }
        assert(levels_remove(rested, price, order.id()) =~= own);
        assert(added.book.remove(side, price, order.id()).bids == book.bids);
        assert(added.book.remove(side, price, order.id()).asks == book.asks);
    } else {
        assert(added.book.bids == book.bids);
        assert(added.book.asks == book.asks);
    }
}

/// Removing an order from a book that is well formed leaves such a book.
pub proof fn lemma_remove_wf(book: BookView, side: Side, price: Price, id: (u64, u64))
    requires
        book.wf(),
    ensures
        book.remove(side, price, id).wf(),
        forall|symbol: Symbol| book.only(symbol) ==> book.remove(side, price, id).only(symbol),
{
    let levels = book.levels(side);
    let after = levels_remove(levels, price, id);
    if levels.contains_key(price) {
        lemma_position_of(levels[price], id);
        assert(level_ok(levels[price], price, side));
    }
    assert forall|p: Price| after.contains_key(p) implies levels.contains_key(p) && level_ok(
        #[trigger] after[p],
        p,
        side,
    ) by {
        if p != price {
            assert(level_ok(levels[p], p, side));
        }
    }
    assert forall|symbol: Symbol| book.only(symbol) implies book.remove(side, price, id).only(
        symbol,
    ) by {
        assert forall|p: Price, i: int| after.contains_key(p) && 0 <= i < after[p].len() implies (
        #[trigger] after[p][i]).symbol() == symbol by {
            if p != price {
                assert(after[p][i] == levels[p][i]);
            } else {
                let at = position_of(levels[price], id);
                if at.is_some() {
                    let k = at.unwrap();
                    if i < k {
                        assert(after[p][i] == levels[p][i]);
                    } else {
                        assert(after[p][i] == levels[p][i + 1]);
                    }
                }
            }
        }
    }
}

/// What removing an order does to the single orders of a book that is well
/// formed. Each order that is left was there before, at the same place but
/// for the one level that lost an order; each order that was there is left,
/// but for the one that went. Where the level at `price` did not hold two
/// orders of the identity `id`, it holds none after it.
pub proof fn lemma_remove_orders(book: BookView, side: Side, price: Price, id: (u64, u64))
    requires
        book.wf(),
    ensures
        ({
            let after = book.remove(side, price, id);
            &&& forall|at: Side, p: Price, j: int| #[trigger]
                rests_at(after.levels(at), p, j) ==> exists|i: int| #[trigger]
                    rests_at(book.levels(at), p, i) && book.levels(at)[p][i] == after.levels(
                        at,
                    )[p][j]
            &&& forall|at: Side, p: Price, i: int| #[trigger]
                rests_at(book.levels(at), p, i) ==> (after.levels(at).contains_key(p)
                    && after.levels(at)[p].contains(book.levels(at)[p][i])) || (at == side && p
                    == price && book.levels(at)[p][i].id() == id)
            &&& book.distinct() ==> after.distinct()
            &&& book.distinct() ==> after.find(side, price, id).is_none()
            &&& book.find(side, price, id).is_none() ==> after == book
        }),
{
    let levels = book.levels(side);
    let after = book.remove(side, price, id);
    let at_price = if levels.contains_key(price) {
        position_of(levels[price], id)
    } else {
        None
    };
    if levels.contains_key(price) {
        lemma_position_of(levels[price], id);
        assert(level_ok(levels[price], price, side));
    }
    match at_price {
        None => {
            assert(after.bids == book.bids && after.asks == book.asks);
            assert forall|at: Side, p: Price, j: int| #[trigger]
                rests_at(after.levels(at), p, j) implies exists|i: int| #[trigger]
                rests_at(book.levels(at), p, i) && book.levels(at)[p][i] == after.levels(at)[p][j] by {
                assert(rests_at(book.levels(at), p, j));
            }
            assert forall|at: Side, p: Price, i: int| #[trigger]
                rests_at(book.levels(at), p, i) implies (after.levels(at).contains_key(p)
                && after.levels(at)[p].contains(book.levels(at)[p][i])) by {
                assert(after.levels(at)[p][i] == book.levels(at)[p][i]);
            }
        },
        Some(k) => {
            let queue = levels[price];
            let shorter = queue.remove(k);
            assert forall|at: Side, p: Price, j: int| #[trigger]
                rests_at(after.levels(at), p, j) implies exists|i: int| #[trigger]
                rests_at(book.levels(at), p, i) && book.levels(at)[p][i] == after.levels(at)[p][j] by {
                if at == side && p == price {
                    if j < k {
                        assert(rests_at(book.levels(at), p, j));
                    } else {
                        assert(rests_at(book.levels(at), p, j + 1));
                    }
                } else {
                    assert(rests_at(book.levels(at), p, j));
                }
            }
            assert forall|at: Side, p: Price, i: int| #[trigger]
                rests_at(book.levels(at), p, i) implies (after.levels(at).contains_key(p)
                && after.levels(at)[p].contains(book.levels(at)[p][i])) || (at == side && p == price
                && book.levels(at)[p][i].id() == id) by {
                if at == side && p == price {
                    if i < k {
                        assert(shorter[i] == queue[i]);
                        assert(after.levels(at)[p][i] == queue[i]);
                    } else if i > k {
                        assert(shorter[i - 1] == queue[i]);
                        assert(after.levels(at)[p][i - 1] == queue[i]);
                    }
                } else {
                    assert(after.levels(at)[p][i] == book.levels(at)[p][i]);
                }
            }
            if levels_distinct(book.bids) && levels_distinct(book.asks) {
                reveal(distinct_ids);
                assert(levels_distinct(book.levels(side)));
                assert(distinct_ids(queue));
                assert forall|i: int, j: int|
                    0 <= i < shorter.len() && 0 <= j < shorter.len() && (#[trigger] shorter[i]).id()
                        == (#[trigger] shorter[j]).id() implies i == j by {
                    let a = if i < k {
                        i
                    } else {
                        i + 1
                    };
                    let b = if j < k {
                        j
                    } else {
                        j + 1
                    };
                    assert(shorter[i] == queue[a] && shorter[j] == queue[b]);
                }
                assert forall|i: int| 0 <= i < shorter.len() implies (#[trigger] shorter[i]).id()
                    != id by {
                    let a = if i < k {
                        i
                    } else {
                        i + 1
                    };
                    assert(shorter[i] == queue[a]);
                }
                lemma_position_of(shorter, id);
                assert forall|at: Side, p: Price| after.levels(at).contains_key(p) implies distinct_ids(
                    #[trigger] after.levels(at)[p],
                ) by {
                    assert(levels_distinct(book.levels(at)));
                    if !(at == side && p == price) {
                        assert(after.levels(at)[p] == book.levels(at)[p]);
                    }
                }
                assert(levels_distinct(after.levels(Side::Bid)));
                assert(levels_distinct(after.levels(Side::Ask)));
            }
        },
    }
}

} // verus!
