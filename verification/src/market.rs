//! A market: one order book for each security, and an index of the orders
//! that rest in them.

use vstd::prelude::*;
use std::collections::HashMap;
use crate::book::view::{executes, rests_at, BookView};
use crate::book::Book;
use crate::market::laws::{
    lemma_add_rests, lemma_add_wf, lemma_cancel_wf, lemma_kept, lemma_trades,
};
use crate::market::view::stale;
use crate::matcher::{maker_id, Matcher};
use crate::order::{Order, Side};
use crate::trade::{total_quantity, Trade};
use crate::{Price, Symbol};

pub mod laws;
pub mod view;

pub use view::MarketView;

verus! {

/// Where an order rests: the book of `symbol`, the level at `price` on
/// `side`, and the identity by which it is found in that level.
pub struct Index {
    pub user_id: u64,
    pub user_order_id: u64,
    pub symbol: Symbol,
    pub price: Price,
    pub side: Side,
}

impl Index {
    /// The place where `order` rests, or would rest.
    pub open spec fn of(order: Order) -> Index {
        Index {
            user_id: order.user_id(),
            user_order_id: order.user_order_id(),
            symbol: order.symbol(),
            price: order.price(),
            side: order.side(),
        }
    }

    /// The identity of the order.
    pub open spec fn spec_ids(&self) -> (u64, u64) {
        (self.user_id, self.user_order_id)
    }

    /// The place where `order` rests, or would rest.
    pub(crate) fn from_order(order: &Order) -> (index: Self)
        ensures
            index == Index::of(*order),
    {
        Self {
            user_id: order.user_id(),
            user_order_id: order.user_order_id(),
            symbol: order.symbol(),
            price: order.price(),
            side: order.side(),
        }
    }

    /// The identity of the order.
    #[verifier::when_used_as_spec(spec_ids)]
    pub fn ids(&self) -> (ids: (u64, u64))
        ensures
            ids == self.spec_ids(),
    {
        (self.user_id, self.user_order_id)
    }
}

/// The identity of an order as one number, the key under which the index
/// holds it.
pub open spec fn pack(id: (u64, u64)) -> u128 {
    (id.0 * 0x1_0000_0000_0000_0000 + id.1) as u128
}

/// Two identities with the same key are the same.
pub proof fn lemma_pack_injective(a: (u64, u64), b: (u64, u64))
    requires
        pack(a) == pack(b),
    ensures
        a == b,
{
}

/// The key under which the index holds the order of the given identity.
fn key_of(user_id: u64, user_order_id: u64) -> (key: u128)
    ensures
        key == pack((user_id, user_order_id)),
{
    (user_id as u128) * 0x1_0000_0000_0000_0000u128 + (user_order_id as u128)
}

/// The book of `symbol` among `books`; the empty one where there is none.
pub closed spec fn book_of(books: Map<Symbol, Book>, symbol: Symbol) -> BookView {
    if books.contains_key(symbol) {
        books[symbol]@
    } else {
        BookView { bids: Map::empty(), asks: Map::empty() }
    }
}

/// The index by identity, given the index by key.
pub closed spec fn by_identity(indices: Map<u128, Index>) -> Map<(u64, u64), Index> {
    Map::new(|id: (u64, u64)| indices.contains_key(pack(id)), |id: (u64, u64)| indices[pack(id)])
}

/// A market: the order books of a set of securities, the index of the
/// orders that rest in them, and the strategy by which orders are matched.
pub struct Market<M> {
    books: HashMap<Symbol, Book>,
    indices: HashMap<u128, Index>,
    matcher: M,
}

impl<M> View for Market<M> {
    type V = MarketView;

    closed spec fn view(&self) -> MarketView {
        MarketView {
            books: Map::new(|s: Symbol| true, |s: Symbol| book_of(self.books@, s)),
            indices: by_identity(self.indices@),
        }
    }
}

impl<M: Matcher> Market<M> {
    /// The market is in order: its view is well formed, each book is in
    /// order, and each entry of the index is held under the key of its
    /// identity.
    pub closed spec fn wf(&self) -> bool {
        &&& forall|s: Symbol| self.books@.contains_key(s) ==> (#[trigger] self.books@[s]).wf()
        &&& forall|k: u128|
            self.indices@.contains_key(k) ==> k == pack((#[trigger] self.indices@[k]).ids())
        &&& self@.wf()
    }

    /// A market without orders that matches by the strategy of `matcher`.
    pub fn new(matcher: M) -> (market: Self)
        ensures
            market.wf(),
            market@.wf(),
            market@.is_empty(),
    {
        let market = Self { books: HashMap::new(), indices: HashMap::new(), matcher };
        proof {
            assert(market@.indices =~= Map::<(u64, u64), Index>::empty());
            assert forall|s: Symbol, side: Side, p: Price, i: int| !rests_at(
                market@.books[s].levels(side),
                p,
                i,
            ) by {}
        }
        market
    }

    /// Drops every order of every book, and the index. No trade is made.
    pub fn clear(&mut self)
        ensures
            final(self).wf(),
            final(self)@.wf(),
            final(self)@.is_empty(),
    {
        self.books.clear();
        self.indices.clear();
        proof {
            assert(self@.indices =~= Map::<(u64, u64), Index>::empty());
            assert forall|s: Symbol, side: Side, p: Price, i: int| !rests_at(
                self@.books[s].levels(side),
                p,
                i,
            ) by {}
        }
    }

    /// Adds `order` to the market: to the book of its security, where it is
    /// crossed against the other side and rests with what is left. Returns
    /// the trades, in the order in which they were made. The index is kept
    /// in step: it forgets the resting orders that the trades used up, and
    /// holds `order` if it rests.
    pub fn add(&mut self, order: Order) -> (trades: Vec<Trade>)
        requires
            old(self).wf(),
            !old(self)@.indices.contains_key(order.id()),
        ensures
            final(self).wf(),
            final(self)@.wf(),
            final(self)@ == old(self)@.add::<M>(order),
            trades@ == old(self)@.trades::<M>(order),
            total_quantity(trades@) <= order.quantity(),
            final(self)@.indices.contains_key(order.id()) <==> total_quantity(trades@)
                < order.quantity(),
            total_quantity(trades@) < order.quantity() ==> final(self)@.find(order.id()) == Some(
                order.reduced(total_quantity(trades@)),
            ),
            forall|k: int|
                0 <= k < trades@.len() ==> executes(
                    #[trigger] trades@[k],
                    order,
                    old(self)@.books[order.symbol()].levels(order.side().opposite()),
                ),
    {
        let ghost before = self@;
        let index = Index::from_order(&order);
        let symbol = order.symbol();
        let side = order.side();
        proof {
            lemma_add_wf::<M>(before, order);
            lemma_add_rests::<M>(before, order);
            lemma_trades::<M>(before, order);
        }
        let mut book = match self.books.remove(&symbol) {
            Some(book) => book,
            None => Book::new(),
        };
        assert(book@ == before.books[symbol]);
        assert(book@.only(symbol));
        let (rested, trades) = book.add(order, &mut self.matcher);
        let mut k: usize = 0;
        while k < trades.len()
            invariant
                k <= trades.len(),
                before == old(self)@,
                before.wf(),
                old(self).wf(),
                self.books@ == old(self).books@.remove(symbol),
                book.wf(),
                symbol == order.symbol(),
                side == order.side(),
                trades@ == before.trades::<M>(order),
                book@ == before.books[symbol].add::<M>(order).book,
                forall|key: u128|
                    self.indices@.contains_key(key) ==> key == pack(
                        (#[trigger] self.indices@[key]).ids(),
                    ),
                forall|id: (u64, u64)| #[trigger]
                    by_identity(self.indices@).contains_key(id) ==> before.indices.contains_key(id)
                        && by_identity(self.indices@)[id] == before.indices[id],
                forall|id: (u64, u64)|
                    before.indices.contains_key(id) && !(#[trigger] by_identity(
                        self.indices@,
                    ).contains_key(id)) ==> stale::<M>(before, order, id),
                forall|j: int|
                    0 <= j < k ==> {
                        let id = maker_id(#[trigger] trades@[j], side);
                        before.indices.contains_key(id) && stale::<M>(before, order, id)
                            ==> !by_identity(self.indices@).contains_key(id)
                    },
            decreases trades.len() - k,
        {
            let trade = &trades[k];
            let (user_id, user_order_id) = match side {
                Side::Bid => (trade.user_id_sell, trade.user_order_id_sell),
                Side::Ask => (trade.user_id_buy, trade.user_order_id_buy),
            };
            let ghost id = (user_id, user_order_id);
            let key = key_of(user_id, user_order_id);
            let gone = match self.indices.get(&key) {
                Some(at) => at.symbol == symbol && at.side != side && !book.contains(at),
                None => false,
            };
            if gone {
                let ghost earlier = self.indices@;
                let ghost at = earlier[key];
                self.indices.remove(&key);
                proof {
                    lemma_pack_injective(at.ids(), id);
                    assert(by_identity(earlier).contains_key(id));
                    assert(at == before.indices[id]);
                    assert(stale::<M>(before, order, id));
                    assert forall|other: (u64, u64)|
                        by_identity(self.indices@).contains_key(other) <==> (other != id
                            && by_identity(earlier).contains_key(other)) by {
                        if other != id && pack(other) == pack(id) {
                            lemma_pack_injective(other, id);
                        }
                    }
                    assert forall|other: (u64, u64)|
                        by_identity(self.indices@).contains_key(other) implies by_identity(
                        self.indices@,
                    )[other] == by_identity(earlier)[other] by {}
                    assert forall|other: (u64, u64)| #[trigger]
                        by_identity(self.indices@).contains_key(
                            other,
                        ) implies before.indices.contains_key(other) && by_identity(
                        self.indices@,
                    )[other] == before.indices[other] by {
                        assert(by_identity(earlier).contains_key(other));
                    }
                    assert forall|other: (u64, u64)|
                        before.indices.contains_key(other) && !(#[trigger] by_identity(
                            self.indices@,
                        ).contains_key(other)) implies stale::<M>(before, order, other) by {
                        if other != id {
                            assert(!by_identity(earlier).contains_key(other));
                        }
                    }
                }
            } else {
                proof {
                    if before.indices.contains_key(id) && stale::<M>(before, order, id)
                        && by_identity(self.indices@).contains_key(id) {
                        let at = self.indices@[key];
                        assert(at == before.indices[id]);
                        assert(false);
                    }
                }
            }
            k = k + 1;
        }
        let ghost cleaned = by_identity(self.indices@);
        proof {
            lemma_kept::<M>(before, order, cleaned);
        }
        self.books.insert(symbol, book);
        if rested {
            self.indices.insert(key_of(index.user_id, index.user_order_id), index);
        }
        proof {
            let after = before.add::<M>(order);
            assert forall|s: Symbol| self@.books[s] == after.books[s] by {
                if s != symbol {
                    assert(book_of(self.books@, s) == book_of(old(self).books@, s));
                }
            }
            assert(self@.books =~= after.books);
            assert forall|other: (u64, u64)|
                self@.indices.contains_key(other) <==> after.indices.contains_key(other) by {
                if other != order.id() && pack(other) == pack(order.id()) {
                    lemma_pack_injective(other, order.id());
                }
            }
            assert(self@.indices =~= after.indices);
        }
        trades
    }

    /// Cancels the order with the given identity: it leaves its book and the
    /// index, and is returned. Where no such order rests in the market,
    /// nothing changes and nothing is returned.
    pub fn cancel(&mut self, user_id: u64, user_order_id: u64) -> (cancelled: Option<Order>)
        requires
            old(self).wf(),
        ensures
            final(self).wf(),
            final(self)@.wf(),
            !old(self)@.indices.contains_key((user_id, user_order_id)) ==> final(self)@ == old(
                self,
            )@,
            final(self)@ == old(self)@.cancel((user_id, user_order_id)),
            cancelled == old(self)@.find((user_id, user_order_id)),
            cancelled is Some <==> old(self)@.indices.contains_key((user_id, user_order_id)),
    {
        let ghost id = (user_id, user_order_id);
        let ghost before = self@;
        proof {
            lemma_cancel_wf(before, id);
        }
        let key = key_of(user_id, user_order_id);
        let index = match self.indices.remove(&key) {
            Some(index) => index,
            None => {
                proof {
                    assert(self.indices@ =~= old(self).indices@);
                }
                return None;
            },
        };
        assert(index == before.indices[id]);
        let symbol = index.symbol;
        let mut book = match self.books.remove(&symbol) {
            Some(book) => book,
            None => {
                proof {
                    assert(before.books[symbol].find(index.side, index.price, id) is Some);
                    assert(false);
                }
                return None;
            },
        };
        assert(book@ == before.books[symbol]);
        let cancelled = book.remove(&index);
        self.books.insert(symbol, book);
        proof {
            let after = before.cancel(id);
            assert(self@.books =~= after.books);
            assert forall|other: (u64, u64)|
                self@.indices.contains_key(other) <==> after.indices.contains_key(other) by {
                if other != id && pack(other) == pack(id) {
                    lemma_pack_injective(other, id);
                }
            }
            assert(self@.indices =~= after.indices);
        }
        cancelled
    }

    /// The book of `symbol`; none where the market has not made one, in
    /// which case no order rests for that security.
    pub fn book(&self, symbol: Symbol) -> (book: Option<&Book>)
        ensures
            match book {
                Some(book) => book@ == self@.books[symbol] && (self.wf() ==> book.wf()),
                None => self@.books[symbol].is_empty(),
            },
    {
        self.books.get(&symbol)
    }

    /// Whether an order with the given identity rests in the market.
    pub fn contains(&self, user_id: u64, user_order_id: u64) -> (found: bool)
        ensures
            found == self@.indices.contains_key((user_id, user_order_id)),
    {
        let key = key_of(user_id, user_order_id);
        self.indices.get(&key).is_some()
    }
}

} // verus!
