//! The view of a market, and what adding and cancelling an order mean for it.

use vstd::prelude::*;
use crate::book::view::{rests_at, BookView};
use crate::market::Index;
use crate::matcher::Matcher;
use crate::order::{Order, Side};
use crate::trade::Trade;
use crate::{Price, Symbol};

verus! {

/// The view of a market: the book of each security, which is empty where
/// nothing rests for it, and the index from the identity of an order to the
/// place where it rests.
pub struct MarketView {
    pub books: Map<Symbol, BookView>,
    pub indices: Map<(u64, u64), Index>,
}

impl MarketView {
    /// The index holds exactly the orders that rest in the books: each
    /// resting order is indexed under its identity with the place where it
    /// rests, each entry of the index names a resting order, and no two
    /// resting orders have the same identity.
    pub open spec fn indexed(self) -> bool {
        &&& self.indexes_all()
        &&& self.names_resting()
        &&& forall|s: Symbol| (#[trigger] self.books[s]).distinct()
    }

    /// Each resting order is indexed under its identity with the place
    /// where it rests.
    pub open spec fn indexes_all(self) -> bool {
        forall|s: Symbol, side: Side, p: Price, i: int| #[trigger]
            rests_at(self.books[s].levels(side), p, i) ==> {
                let order = self.books[s].levels(side)[p][i];
                self.indices.contains_key(order.id()) && self.indices[order.id()] == Index::of(
                    order,
                )
            }
    }

    /// Each entry of the index stands under the identity it holds, and an
    /// order of that identity rests at the place it names.
    pub open spec fn names_resting(self) -> bool {
        forall|id: (u64, u64)| #[trigger]
            self.indices.contains_key(id) ==> {
                let index = self.indices[id];
                index.ids() == id && still_rests(self.books, index)
            }
    }

    /// Every security has a book, which is well formed and holds only
    /// orders for that security, and the index holds exactly the orders that
    /// rest.
    pub open spec fn wf(self) -> bool {
        &&& forall|s: Symbol| self.books.contains_key(s)
        &&& forall|s: Symbol| (#[trigger] self.books[s]).wf() && self.books[s].only(s)
        &&& self.indexed()
    }

    /// No order rests, and the index is empty.
    pub open spec fn is_empty(self) -> bool {
        &&& forall|s: Symbol| (#[trigger] self.books[s]).is_empty()
        &&& self.indices == Map::<(u64, u64), Index>::empty()
    }
}

impl MarketView {
    /// The market after the order with the identity `id` is cancelled: the
    /// order has left its book, and the index has forgotten it. Where the
    /// index does not hold `id`, the market itself.
    pub open spec fn cancel(self, id: (u64, u64)) -> MarketView {
        if self.indices.contains_key(id) {
            let index = self.indices[id];
            MarketView {
                books: self.books.insert(
                    index.symbol,
                    self.books[index.symbol].remove(index.side, index.price, id),
                ),
                indices: self.indices.remove(id),
            }
        } else {
            self
        }
    }

    /// The market after `order` is added under the strategy `M`. The order
    /// is added to the book of its security. The index forgets each order
    /// that no longer rests after that, and holds the incoming order if it
    /// rests.
    pub open spec fn add<M: Matcher>(self, order: Order) -> MarketView {
        let added = self.books[order.symbol()].add::<M>(order);
        let books = self.books.insert(order.symbol(), added.book);
        let kept = Map::new(
            |id: (u64, u64)| self.indices.contains_key(id) && still_rests(books, self.indices[id]),
            |id: (u64, u64)| self.indices[id],
        );
        MarketView {
            books,
            indices: if added.rested {
                kept.insert(order.id(), Index::of(order))
            } else {
                kept
            },
        }
    }

    /// The trades that adding `order` under the strategy `M` makes, in the
    /// order in which they are made.
    pub open spec fn trades<M: Matcher>(self, order: Order) -> Seq<Trade> {
        self.books[order.symbol()].add::<M>(order).trades
    }

    /// The order that `cancel` takes out of the market, if any.
    pub open spec fn find(self, id: (u64, u64)) -> Option<Order> {
        if self.indices.contains_key(id) {
            let index = self.indices[id];
            self.books[index.symbol].find(index.side, index.price, id)
        } else {
            None
        }
    }
}

/// Whether the order that `index` names rests in `books`, at the place that
/// `index` gives.
pub open spec fn still_rests(books: Map<Symbol, BookView>, index: Index) -> bool {
    books[index.symbol].find(index.side, index.price, index.ids()) is Some
}

/// Whether adding `order` to `market` makes the entry of the index for `id`
/// stale: the entry names a place on the other side of the book in which
/// `order` trades, and the order with that identity rests there no more.
pub open spec fn stale<M: Matcher>(market: MarketView, order: Order, id: (u64, u64)) -> bool {
    let index = market.indices[id];
    &&& index.symbol == order.symbol()
    &&& index.side == order.side().opposite()
    &&& market.books[order.symbol()].add::<M>(order).book.find(index.side, index.price, id) is None
}

} // verus!
