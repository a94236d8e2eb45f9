//! Orders: the side they sit on, their data, and the execution of one order
//! against another.

use vstd::prelude::*;
use crate::trade::Trade;
use crate::{Price, Symbol};

verus! {

/// The side of the market an order sits on.
#[derive(Debug, Clone, Copy, PartialEq, Eq, Structural)]
pub enum Side {
    Bid,
    Ask,
}

impl Side {
    /// The side an order on this side trades against.
    pub open spec fn spec_opposite(self) -> Side {
        match self {
            Side::Bid => Side::Ask,
            Side::Ask => Side::Bid,
        }
    }

    /// The side an order on this side trades against.
    #[verifier::when_used_as_spec(spec_opposite)]
    pub fn opposite(self) -> (other: Side)
        ensures
            other == self.spec_opposite(),
    {
        match self {
            Side::Bid => Side::Ask,
            Side::Ask => Side::Bid,
        }
    }
}

/// Whether an order on `side` at `price` is willing to trade with an order of
/// the opposite side at `other`: a bid at or above the ask, an ask at or below
/// the bid.
pub open spec fn crosses(side: Side, price: Price, other: Price) -> bool {
    match side {
        Side::Bid => price >= other,
        Side::Ask => price <= other,
    }
}

/// A limit order: an order to buy (bid) at `price` or lower, or to sell (ask)
/// at `price` or higher. `quantity` is what is still open.
#[derive(Debug)]
pub struct LimitOrder {
    pub user_id: u64,
    pub user_order_id: u64,
    pub side: Side,
    pub symbol: Symbol,
    pub price: Price,
    pub quantity: u64,
}

/// An order of any kind the market accepts.
#[derive(Debug)]
pub enum Order {
    Limit(LimitOrder),
}

/// Holds the client's identity of an order while the rest of it is supplied.
pub struct OrderBuilder {
    user_id: u64,
    user_order_id: u64,
}

/// The trade in which `taker` executes `quantity` units against `maker`. The
/// buy side is whichever of the two is the bid, and the price is the maker's.
pub open spec fn trade_between(taker: LimitOrder, maker: LimitOrder, quantity: u64) -> Trade {
    let (bid, ask) = if taker.side == Side::Bid {
        (taker, maker)
    } else {
        (maker, taker)
    };
    Trade {
        user_id_buy: bid.user_id,
        user_order_id_buy: bid.user_order_id,
        user_id_sell: ask.user_id,
        user_order_id_sell: ask.user_order_id,
        symbol: bid.symbol,
        price: maker.price,
        quantity,
    }
}

impl LimitOrder {
    /// Whether `self` may execute against `other`: they sit on opposite
    /// sides, are for the same security, and their prices cross.
    pub open spec fn can_trade_with(self, other: LimitOrder) -> bool {
        &&& other.side == self.side.opposite()
        &&& other.symbol == self.symbol
        &&& crosses(self.side, self.price, other.price)
    }

    /// The quantity that `self` and `other` execute against each other: all
    /// of the smaller one.
    pub open spec fn fill_with(self, other: LimitOrder) -> u64 {
        if self.quantity <= other.quantity {
            self.quantity
        } else {
            other.quantity
        }
    }

    /// This order with `quantity` units less open.
    pub open spec fn reduced(self, quantity: nat) -> LimitOrder {
        LimitOrder { quantity: (self.quantity - quantity) as u64, ..self }
    }

    /// Executes as much as possible of `self`, the incoming order, against
    /// `other`, the resting one. Both lose the executed quantity, and the
    /// trade is priced at the resting order's price.
    pub fn match_to(&mut self, other: &mut Self) -> (trade: Trade)
        requires
            old(self).can_trade_with(*old(other)),
        ensures
            trade == trade_between(*old(self), *old(other), old(self).fill_with(*old(other))),
            *final(self) == old(self).reduced(old(self).fill_with(*old(other)) as nat),
            *final(other) == old(other).reduced(old(self).fill_with(*old(other)) as nat),
    {
        let trade_quantity = if self.quantity <= other.quantity {
            self.quantity
        } else {
            other.quantity
        };
        self.quantity = self.quantity - trade_quantity;
        other.quantity = other.quantity - trade_quantity;
        match self.side {
            Side::Bid => Trade {
                user_id_buy: self.user_id,
                user_order_id_buy: self.user_order_id,
                user_id_sell: other.user_id,
                user_order_id_sell: other.user_order_id,
                symbol: self.symbol,
                price: other.price,
                quantity: trade_quantity,
            },
            Side::Ask => Trade {
                user_id_buy: other.user_id,
                user_order_id_buy: other.user_order_id,
                user_id_sell: self.user_id,
                user_order_id_sell: self.user_order_id,
                symbol: other.symbol,
                price: other.price,
                quantity: trade_quantity,
            },
        }
    }
}

impl Order {
    /// The data of the order, whatever its kind.
    pub open spec fn limit(self) -> LimitOrder {
        match self {
            Order::Limit(order) => order,
        }
    }

    /// The client's identity of the order: the pair of user id and user order
    /// id.
    pub open spec fn id(self) -> (u64, u64) {
        (self.limit().user_id, self.limit().user_order_id)
    }

    /// The id of the user who placed the order.
    pub open spec fn spec_user_id(&self) -> u64 {
        self.limit().user_id
    }

    /// The id the user gave the order.
    pub open spec fn spec_user_order_id(&self) -> u64 {
        self.limit().user_order_id
    }

    /// The security the order is for.
    pub open spec fn spec_symbol(&self) -> Symbol {
        self.limit().symbol
    }

    /// The limit price of the order.
    pub open spec fn spec_price(&self) -> Price {
        self.limit().price
    }

    /// The side the order sits on.
    pub open spec fn spec_side(&self) -> Side {
        self.limit().side
    }

    /// The quantity that is still open.
    pub open spec fn spec_quantity(&self) -> u64 {
        self.limit().quantity
    }

    /// Whether nothing of the order is left open.
    pub open spec fn spec_is_done(&self) -> bool {
        self.limit().quantity == 0
    }

    /// This order with `quantity` units less open.
    pub open spec fn reduced(self, quantity: nat) -> Order {
        Order::Limit(self.limit().reduced(quantity))
    }

    /// Whether `self` may execute against `other`.
    pub open spec fn can_trade_with(self, other: Order) -> bool {
        self.limit().can_trade_with(other.limit())
    }

    /// Starts an order with the client's identity of it.
    pub fn with_ids(user_id: u64, user_order_id: u64) -> (builder: OrderBuilder)
        ensures
            builder.user_id() == user_id,
            builder.user_order_id() == user_order_id,
    {
        OrderBuilder::new(user_id, user_order_id)
    }

    /// The id of the user who placed the order.
    #[verifier::when_used_as_spec(spec_user_id)]
    pub fn user_id(&self) -> (id: u64)
        ensures
            id == self.spec_user_id(),
    {
        match self {
            Order::Limit(order) => order.user_id,
        }
    }

    /// The id the user gave the order.
    #[verifier::when_used_as_spec(spec_user_order_id)]
    pub fn user_order_id(&self) -> (id: u64)
        ensures
            id == self.spec_user_order_id(),
    {
        match self {
            Order::Limit(order) => order.user_order_id,
        }
    }

    /// The security the order is for.
    #[verifier::when_used_as_spec(spec_symbol)]
    pub fn symbol(&self) -> (symbol: Symbol)
        ensures
            symbol == self.spec_symbol(),
    {
        match self {
            Order::Limit(order) => order.symbol,
        }
    }

    /// The limit price of the order.
    #[verifier::when_used_as_spec(spec_price)]
    pub fn price(&self) -> (price: Price)
        ensures
            price == self.spec_price(),
    {
        match self {
            Order::Limit(order) => order.price,
        }
    }

    /// The side the order sits on.
    #[verifier::when_used_as_spec(spec_side)]
    pub fn side(&self) -> (side: Side)
        ensures
            side == self.spec_side(),
    {
        match self {
            Order::Limit(order) => order.side,
        }
    }

    /// The quantity that is still open.
    #[verifier::when_used_as_spec(spec_quantity)]
    pub fn quantity(&self) -> (quantity: u64)
        ensures
            quantity == self.spec_quantity(),
    {
        match self {
            Order::Limit(order) => order.quantity,
        }
    }

    /// Whether nothing of the order is left open.
    #[verifier::when_used_as_spec(spec_is_done)]
    pub fn is_done(&self) -> (done: bool)
        ensures
            done == self.spec_is_done(),
    {
        self.quantity() == 0
    }

    /// Executes as much as possible of `self`, the incoming order, against
    /// `other`, the resting one. Both lose the executed quantity, and the
    /// trade is priced at the resting order's price.
    pub fn match_to(&mut self, other: &mut Self) -> (trade: Trade)
        requires
            old(self).can_trade_with(*old(other)),
        ensures
            trade == trade_between(
                old(self).limit(),
                old(other).limit(),
                old(self).limit().fill_with(old(other).limit()),
            ),
            *final(self) == old(self).reduced(old(self).limit().fill_with(old(other).limit()) as nat),
            *final(other) == old(other).reduced(
                old(self).limit().fill_with(old(other).limit()) as nat,
            ),
    {
        match self {
            Order::Limit(order) => match other {
                Order::Limit(other_order) => order.match_to(other_order),
            },
        }
    }
}

impl OrderBuilder {
    /// The id of the user who places the order.
    pub closed spec fn user_id(self) -> u64 {
        self.user_id
    }

    /// The id the user gives the order.
    pub closed spec fn user_order_id(self) -> u64 {
        self.user_order_id
    }

    /// Starts an order with the client's identity of it.
    pub fn new(user_id: u64, user_order_id: u64) -> (builder: Self)
        ensures
            builder.user_id() == user_id,
            builder.user_order_id() == user_order_id,
    {
        Self { user_id, user_order_id }
    }

    /// Completes the builder to a limit order.
    pub fn limit_order(self, side: Side, symbol: Symbol, price: Price, quantity: u64) -> (order:
        Order)
        ensures
            order == Order::Limit(
                LimitOrder {
                    user_id: self.user_id(),
                    user_order_id: self.user_order_id(),
                    side,
                    symbol,
                    price,
                    quantity,
                },
            ),
    {
        Order::Limit(
            LimitOrder {
                user_id: self.user_id,
                user_order_id: self.user_order_id,
                side,
                symbol,
                price,
                quantity,
            },
        )
    }
}

} // verus!
