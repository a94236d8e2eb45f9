//! Time priority: within a level the oldest order trades first.

use vstd::prelude::*;
use crate::level::Level;
use crate::matcher::{
    all_live, distinct_ids, fair, has_id, maker_id, matchable, remains_of, taker_id, Matched,
    Matcher,
};
use crate::order::{trade_between, Order, Side};
use crate::trade::{lemma_total_quantity_concat, total_quantity, Trade};
use crate::Price;

verus! {

/// The strategy of time priority: the incoming order trades with the head of
/// the queue until one of the two is done, then with the next head.
pub struct FIFOMatcher;

/// What time priority makes of `taker` and the queue `resting`, whose last
/// order is the head. While `taker` has quantity open and the queue is not
/// empty, `taker` trades with the head for all of the smaller of the two; a
/// head that is done leaves the queue.
pub open spec fn fifo(taker: Order, resting: Seq<Order>) -> Matched
    decreases resting.len(),
{
    if taker.is_done() || resting.len() == 0 {
        Matched { trades: Seq::empty(), resting }
    } else {
        let head = resting.last();
        let quantity = taker.limit().fill_with(head.limit());
        let trade = trade_between(taker.limit(), head.limit(), quantity);
        if quantity == head.quantity() {
            let rest = fifo(taker.reduced(quantity as nat), resting.drop_last());
            Matched { trades: seq![trade] + rest.trades, resting: rest.resting }
        } else {
            Matched {
                trades: seq![trade],
                resting: resting.drop_last().push(head.reduced(quantity as nat)),
            }
        }
    }
}

/// One step of time priority: the trades of `taker` against `resting` are
/// the trade with the head, then the trades of what is left of `taker`
/// against what is left of the queue.
proof fn lemma_fifo_step(taker: Order, resting: Seq<Order>)
    requires
        !taker.is_done(),
        resting.len() > 0,
    ensures
        ({
            let head = resting.last();
            let quantity = taker.limit().fill_with(head.limit());
            let trade = trade_between(taker.limit(), head.limit(), quantity);
            let left = if quantity == head.quantity() {
                resting.drop_last()
            } else {
                resting.drop_last().push(head.reduced(quantity as nat))
            };
            let rest = fifo(taker.reduced(quantity as nat), left);
            fifo(taker, resting) == (Matched {
                trades: seq![trade] + rest.trades,
                resting: rest.resting,
            })
        }),
{
    let head = resting.last();
    let quantity = taker.limit().fill_with(head.limit());
    if quantity != head.quantity() {
        let left = resting.drop_last().push(head.reduced(quantity as nat));
        let trade = trade_between(taker.limit(), head.limit(), quantity);
        assert(taker.reduced(quantity as nat).is_done());
        assert(fifo(taker.reduced(quantity as nat), left).trades == Seq::<Trade>::empty());
        assert(seq![trade] + Seq::<Trade>::empty() == seq![trade]);
    }
}

/// Time priority: the orders of a level trade in the order in which they
/// came.
///
/// The first trade is made with the oldest order, the next with the next
/// oldest, and so on. Each trade but the last uses up its resting order. What
/// is left of the queue are the orders that came after the ones that traded,
/// unchanged and in their places; where the last trade did not use up its
/// resting order, what is left of that order is still the head.
pub proof fn lemma_fifo_time_priority(taker: Order, resting: Seq<Order>)
    ensures
        ({
            let matched = fifo(taker, resting);
            let n = resting.len() as int;
            let t = matched.trades.len() as int;
            let left = matched.resting.len() as int;
            &&& t <= n
            &&& left == n - t || (left == n - t + 1 && t > 0)
            &&& forall|k: int|
                0 <= k < t ==> maker_id(#[trigger] matched.trades[k], taker.side()) == resting[n
                    - 1 - k].id()
            &&& forall|k: int|
                0 <= k < t && (k < t - 1 || left == n - t) ==> (#[trigger] matched.trades[k]).quantity
                    == resting[n - 1 - k].quantity()
            &&& forall|j: int| 0 <= j < n - t ==> #[trigger] matched.resting[j] == resting[j]
            &&& left == n - t + 1 ==> matched.trades[t - 1].quantity < resting[n - t].quantity()
                && matched.resting[n - t] == resting[n - t].reduced(
                matched.trades[t - 1].quantity as nat,
            )
        }),
    decreases resting.len(),
{
    let matched = fifo(taker, resting);
    if !(taker.is_done() || resting.len() == 0) {
        let head = resting.last();
        let quantity = taker.limit().fill_with(head.limit());
        let trade = trade_between(taker.limit(), head.limit(), quantity);
        assert(maker_id(trade, taker.side()) == head.id());
        if quantity == head.quantity() {
            let taker2 = taker.reduced(quantity as nat);
            let front = resting.drop_last();
            let rest = fifo(taker2, front);
            lemma_fifo_time_priority(taker2, front);
            let n = resting.len() as int;
            let t = matched.trades.len() as int;
            assert forall|k: int| 0 <= k < t implies maker_id(
                #[trigger] matched.trades[k],
                taker.side(),
            ) == resting[n - 1 - k].id() by {
                if k > 0 {
                    assert(matched.trades[k] == rest.trades[k - 1]);
                    assert(front[n - 1 - k] == resting[n - 1 - k]);
                }
            }
            assert forall|k: int|
                0 <= k < t && (k < t - 1 || matched.resting.len() == n - t) implies (
            #[trigger] matched.trades[k]).quantity == resting[n - 1 - k].quantity() by {
                if k > 0 {
                    assert(matched.trades[k] == rest.trades[k - 1]);
                    assert(front[n - 1 - k] == resting[n - 1 - k]);
                }
            }
            assert forall|j: int| 0 <= j < n - t implies #[trigger] matched.resting[j]
                == resting[j] by {
                assert(rest.resting[j] == front[j]);
            }
            if matched.resting.len() == n - t + 1 {
                assert(matched.trades[t - 1] == rest.trades[t - 2]);
                assert(front[n - t] == resting[n - t]);
            }
        }
    }
}

/// Time priority is fair.
proof fn lemma_fifo_fair(taker: Order, price: Price, side: Side, resting: Seq<Order>)
    requires
        matchable(taker, price, side, resting),
        all_live(resting, taker.symbol()),
    ensures
        fair(taker, price, resting, fifo(taker, resting)),
    decreases resting.len(),
{
    reveal(distinct_ids);
    let matched = fifo(taker, resting);
    if taker.is_done() || resting.len() == 0 {
        assert(total_quantity(matched.trades) == 0);
        assert forall|j: int| 0 <= j < matched.resting.len() implies exists|i: int|
            0 <= i < resting.len() && remains_of(resting[i], #[trigger] matched.resting[j]) by {
            assert(remains_of(resting[j], matched.resting[j]));
        }
        assert forall|i: int| 0 <= i < resting.len() implies matched.resting.contains(
            #[trigger] resting[i],
        ) by {
            assert(matched.resting[i] == resting[i]);
        }
    } else {
        let head = resting.last();
        let quantity = taker.limit().fill_with(head.limit());
        let trade = trade_between(taker.limit(), head.limit(), quantity);
        assert(quantity > 0);
        assert(maker_id(trade, taker.side()) == head.id());
        assert(has_id(resting, head.id()));
        assert(taker_id(trade, taker.side()) == taker.id());
        assert(total_quantity(seq![trade]) == quantity) by {
            assert(seq![trade].drop_last() == Seq::<Trade>::empty());
            assert(total_quantity(Seq::<Trade>::empty()) == 0);
        }
        if quantity == head.quantity() {
            let taker2 = taker.reduced(quantity as nat);
            let front = resting.drop_last();
            let rest = fifo(taker2, front);
            lemma_fifo_fair(taker2, price, side, front);
            lemma_total_quantity_concat(seq![trade], rest.trades);
            assert forall|j: int| 0 <= j < matched.resting.len() implies exists|i: int|
                0 <= i < resting.len() && remains_of(resting[i], #[trigger] matched.resting[j]) by {
                let i = choose|i: int|
                    0 <= i < front.len() && remains_of(front[i], rest.resting[j]);
                assert(remains_of(resting[i], matched.resting[j]));
            }
            assert(distinct_ids(resting) ==> distinct_ids(front)) by {
                if distinct_ids(resting) {
                    assert forall|i: int, j: int|
                        0 <= i < front.len() && 0 <= j < front.len() && (#[trigger] front[i]).id()
                            == (#[trigger] front[j]).id() implies i == j by {
                        assert(front[i] == resting[i] && front[j] == resting[j]);
                    }
                }
            }
            assert forall|i: int| 0 <= i < resting.len() implies matched.resting.contains(
                #[trigger] resting[i],
            ) || exists|k: int|
                0 <= k < matched.trades.len() && maker_id(
                    #[trigger] matched.trades[k],
                    taker.side(),
                ) == resting[i].id() by {
                if i == resting.len() - 1 {
                    assert(matched.trades[0] == trade);
                } else {
                    assert(front[i] == resting[i]);
                    if !rest.resting.contains(front[i]) {
                        let k = choose|k: int|
                            0 <= k < rest.trades.len() && maker_id(
                                #[trigger] rest.trades[k],
                                taker2.side(),
                            ) == front[i].id();
                        assert(matched.trades[k + 1] == rest.trades[k]);
                    }
                }
            }
            assert forall|k: int| 0 <= k < matched.trades.len() implies {
                &&& (#[trigger] matched.trades[k]).quantity > 0
                &&& matched.trades[k].price == price
                &&& matched.trades[k].symbol == taker.symbol()
                &&& taker_id(matched.trades[k], taker.side()) == taker.id()
                &&& has_id(resting, maker_id(matched.trades[k], taker.side()))
            } by {
                if k > 0 {
                    assert(matched.trades[k] == rest.trades[k - 1]);
                    let id = maker_id(rest.trades[k - 1], taker2.side());
                    assert(has_id(front, id));
                    let i = choose|i: int| 0 <= i < front.len() && (#[trigger] front[i]).id() == id;
                    assert(resting[i].id() == id);
                }
            }
        } else {
            let front = resting.drop_last();
            assert forall|j: int| 0 <= j < matched.resting.len() implies exists|i: int|
                0 <= i < resting.len() && remains_of(resting[i], #[trigger] matched.resting[j]) by {
                assert(remains_of(resting[j], matched.resting[j]));
            }
            assert(distinct_ids(resting) ==> distinct_ids(matched.resting)) by {
                if distinct_ids(resting) {
                    assert forall|i: int, j: int|
                        0 <= i < matched.resting.len() && 0 <= j < matched.resting.len() && (
                        #[trigger] matched.resting[i]).id() == (#[trigger] matched.resting[j]).id()
                        implies i == j by {
                        assert(matched.resting[i].id() == resting[i].id());
                        assert(matched.resting[j].id() == resting[j].id());
                    }
                }
            }
            assert forall|i: int| 0 <= i < resting.len() implies matched.resting.contains(
                #[trigger] resting[i],
            ) || exists|k: int|
                0 <= k < matched.trades.len() && maker_id(
                    #[trigger] matched.trades[k],
                    taker.side(),
                ) == resting[i].id() by {
                if i == resting.len() - 1 {
                    assert(matched.trades[0] == trade);
                } else {
                    assert(matched.resting[i] == resting[i]);
                }
            }
        }
    }
}

impl Matcher for FIFOMatcher {
    open spec fn matched(taker: Order, resting: Seq<Order>) -> Matched {
        fifo(taker, resting)
    }

    proof fn lemma_matched_fair(taker: Order, price: Price, side: Side, resting: Seq<Order>) {
        lemma_fifo_fair(taker, price, side, resting);
    }

    fn match_order(&mut self, order: &mut Order, level: &mut Level) -> (trades: Vec<Trade>) {
        let mut trades: Vec<Trade> = Vec::new();
        proof {
            assert(trades@ + fifo(*order, level@).trades == fifo(*order, level@).trades);
            assert(total_quantity(trades@) == 0);
        }
        while !order.is_done() && !level.is_empty()
            invariant
                level.price() == old(level).price(),
                level.side() == old(level).side(),
                matchable(*order, level.price(), level.side(), level@),
                fifo(*old(order), old(level)@).trades == trades@ + fifo(*order, level@).trades,
                fifo(*old(order), old(level)@).resting == fifo(*order, level@).resting,
                total_quantity(trades@) <= old(order).quantity(),
                *order == old(order).reduced(total_quantity(trades@)),
            decreases level@.len(), order.quantity(),
        {
            let ghost taker = *order;
            let ghost resting = level@;
            let ghost so_far = trades@;
            proof {
                lemma_fifo_step(taker, resting);
            }
            let head = level.head_mut();
            let trade = order.match_to(head);
            trades.push(trade);
            if level.peek_head().is_done() {
                level.pop_head();
            }
            proof {
                let quantity = taker.limit().fill_with(resting.last().limit());
                if quantity == resting.last().quantity() {
                    assert(level@ == resting.drop_last());
                } else {
                    assert(level@ == resting.drop_last().push(
                        resting.last().reduced(quantity as nat),
                    ));
                }
                assert(so_far + (seq![trade] + fifo(*order, level@).trades) == so_far.push(trade)
                    + fifo(*order, level@).trades);
                assert(trades@.drop_last() == so_far);
            }
        }
        proof {
            assert(fifo(*order, level@).trades == Seq::<Trade>::empty());
            assert(trades@ + Seq::<Trade>::empty() == trades@);
        }
        trades
    }
}

} // verus!
