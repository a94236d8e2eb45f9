//! The command driver: it takes the commands of the clients one by one and
//! applies each to the market.

use vstd::prelude::*;
use crate::command::{CancelOrder, Command, CommandView, NewOrder, NewOrderView};
use crate::market::{Market, MarketView};
use crate::matcher::Matcher;
use crate::order::{LimitOrder, Order, Side};
use crate::symbols::{lemma_one_handle, takes, with_name, Interner};
use crate::trade::Trade;
use crate::Symbol;

verus! {

/// Whether `side` is one of the two characters that stand for a side.
pub open spec fn is_side(side: char) -> bool {
    side == 'B' || side == 'S'
}

/// The side that the character `side` stands for: `B` for a bid, `S` for an
/// ask.
pub open spec fn side_of(side: char) -> Side {
    if side == 'B' {
        Side::Bid
    } else {
        Side::Ask
    }
}

/// The limit order that the client asks for with `new`, for the security
/// with the handle `symbol`.
pub open spec fn order_for(new: NewOrderView, symbol: Symbol) -> Order {
    Order::Limit(
        LimitOrder {
            user_id: new.user_id,
            user_order_id: new.user_order_id,
            side: side_of(new.side),
            symbol,
            price: new.price,
            quantity: new.quantity,
        },
    )
}

/// The handle of `name` in the table `names`: the place at which it stands.
pub open spec fn handle_of(names: Seq<Seq<char>>, name: Seq<char>) -> Symbol {
    (choose|i: int| 0 <= i < names.len() && names[i] == name) as usize
}

/// The side that the character `side` stands for.
pub fn decode_side(side: char) -> (decoded: Side)
    requires
        is_side(side),
    ensures
        decoded == side_of(side),
{
    if side == 'B' {
        Side::Bid
    } else {
        Side::Ask
    }
}

/// The limit order that the client asks for with `order`. The name of the
/// security is interned in `si`, and the order carries its handle.
pub fn limit_order(order: NewOrder, si: &mut Interner) -> (limit: Order)
    requires
        is_side(order.side),
        takes(old(si)@, order.symbol@),
    ensures
        final(si)@ == with_name(old(si)@, order.symbol@),
        limit.symbol() < final(si)@.len(),
        final(si)@[limit.symbol() as int] == order.symbol@,
        limit == order_for(order@, limit.symbol()),
        old(si)@.no_duplicates() ==> final(si)@.no_duplicates() && limit.symbol() == handle_of(
            final(si)@,
            order.symbol@,
        ),
{
    let side = decode_side(order.side);
    let symbol = si.intern(order.symbol.as_str());
    proof {
        if old(si)@.no_duplicates() {
            let found = handle_of(si@, order.symbol@);
            lemma_one_handle(si@, symbol as int, found as int);
        }
    }
    Order::with_ids(order.user_id, order.user_order_id).limit_order(
        side,
        symbol,
        order.price,
        order.quantity,
    )
}

/// Why a command was not applied.
#[derive(Debug, Clone, Copy, PartialEq, Eq, Structural)]
pub enum Rejection {
    /// The side of a new order is neither `B` nor `S`.
    InvalidSide,
    /// A resting order has the identity of the new order.
    DuplicateOrder,
    /// The security of a new order is a new one, and no handle is left for
    /// it.
    SymbolsExhausted,
}

/// What came of a command.
#[derive(Debug)]
pub enum Outcome {
    /// A new order was added; these are the trades it made.
    Traded(Vec<Trade>),
    /// A cancel was applied; this is the order it took out, if any.
    Cancelled(Option<Order>),
    /// All resting orders were dropped.
    Flushed,
    /// The command was not applied, and nothing has changed.
    Rejected(Rejection),
}

/// The view of an engine: the market, and the names of the securities in the
/// order of their handles.
pub struct EngineView {
    pub market: MarketView,
    pub names: Seq<Seq<char>>,
}

impl EngineView {
    /// The market is well formed, and no name has two handles.
    pub open spec fn wf(self) -> bool {
        &&& self.market.wf()
        &&& self.names.no_duplicates()
    }

    /// Why the new order `new` is not applied, if it is not. The side is
    /// looked at first, then the identity, then the name of the security.
    pub open spec fn rejects(self, new: NewOrderView) -> Option<Rejection> {
        if !is_side(new.side) {
            Some(Rejection::InvalidSide)
        } else if self.market.indices.contains_key((new.user_id, new.user_order_id)) {
            Some(Rejection::DuplicateOrder)
        } else if !takes(self.names, new.symbol) {
            Some(Rejection::SymbolsExhausted)
        } else {
            None
        }
    }

    /// The order that is added for `new`: it carries the handle that the
    /// name of its security has once the name is in the table.
    pub open spec fn order(self, new: NewOrderView) -> Order {
        order_for(new, handle_of(with_name(self.names, new.symbol), new.symbol))
    }

    /// The engine after `command` is applied under the strategy `M`.
    pub open spec fn apply<M: Matcher>(self, command: CommandView) -> EngineView {
        match command {
            CommandView::New(new) => if self.rejects(new) is Some {
                self
            } else {
                EngineView {
                    market: self.market.add::<M>(self.order(new)),
                    names: with_name(self.names, new.symbol),
                }
            },
            CommandView::Cancel(cancel) => EngineView {
                market: self.market.cancel((cancel.user_id, cancel.user_order_id)),
                names: self.names,
            },
            CommandView::Flush => EngineView {
                market: MarketView {
                    books: Map::new(
                        |s: Symbol| true,
                        |s: Symbol| crate::book::BookView { bids: Map::empty(), asks: Map::empty() },
                    ),
                    indices: Map::empty(),
                },
                names: self.names,
            },
        }
    }
}

/// The state that the commands work on: the market, and the table that
/// gives each security its handle.
pub struct Engine<M> {
    market: Market<M>,
    symbols: Interner,
}

impl<M> View for Engine<M> {
    type V = EngineView;

    closed spec fn view(&self) -> EngineView {
        EngineView { market: self.market@, names: self.symbols@ }
    }
}

impl<M: Matcher> Engine<M> {
    /// The engine is in order: so is its market, and its view is well
    /// formed.
    pub closed spec fn wf(&self) -> bool {
        &&& self.market.wf()
        &&& self@.wf()
    }

    /// An engine with an empty market that matches by the strategy of
    /// `matcher`, and without names.
    pub fn new(matcher: M) -> (engine: Self)
        ensures
            engine.wf(),
            engine@.wf(),
            engine@.market.is_empty(),
            engine@.names == Seq::<Seq<char>>::empty(),
    {
        Self { market: Market::new(matcher), symbols: Interner::new() }
    }

    /// The market.
    pub fn market(&self) -> (market: &Market<M>)
        ensures
            market@ == self@.market,
            self.wf() ==> market.wf(),
    {
        &self.market
    }

    /// The table of the names of the securities.
    pub fn symbols(&self) -> (symbols: &Interner)
        ensures
            symbols@ == self@.names,
    {
        &self.symbols
    }

    /// Applies `command` to the market.
    ///
    /// A new order is turned into a limit order and added, and its trades
    /// come back; it is rejected, and nothing changes, where its side is not
    /// valid, where an order of its identity rests, or where no handle is
    /// left for its security. A cancel takes the order of the given
    /// identity out, if it rests. A flush drops all resting orders.
    pub fn apply(&mut self, command: Command) -> (outcome: Outcome)
        requires
            old(self).wf(),
        ensures
            final(self).wf(),
            final(self)@.wf(),
            final(self)@ == old(self)@.apply::<M>(command@),
            match command@ {
                CommandView::New(new) => match old(self)@.rejects(new) {
                    Some(rejection) => outcome == Outcome::Rejected(rejection),
                    None => outcome matches Outcome::Traded(trades) && trades@ == old(
                        self,
                    )@.market.trades::<M>(old(self)@.order(new)),
                },
                CommandView::Cancel(cancel) => outcome matches Outcome::Cancelled(cancelled)
                    && cancelled == old(self)@.market.find((cancel.user_id, cancel.user_order_id)),
                CommandView::Flush => outcome == Outcome::Flushed,
            },
    {
        match command {
            Command::New(order) => {
                if !(order.side == 'B' || order.side == 'S') {
                    return Outcome::Rejected(Rejection::InvalidSide);
                }
                if self.market.contains(order.user_id, order.user_order_id) {
                    return Outcome::Rejected(Rejection::DuplicateOrder);
                }
                if !self.symbols.accepts(order.symbol.as_str()) {
                    return Outcome::Rejected(Rejection::SymbolsExhausted);
                }
                let limit = limit_order(order, &mut self.symbols);
                Outcome::Traded(self.market.add(limit))
            },
            Command::Cancel(CancelOrder { user_id, user_order_id }) => {
                Outcome::Cancelled(self.market.cancel(user_id, user_order_id))
            },
            Command::Flush => {
                self.market.clear();
                proof {
                    let flushed = old(self)@.apply::<M>(command@).market;
                    assert(self@.market.books =~= flushed.books);
                }
                Outcome::Flushed
            },
        }
    }
}

} // verus!
