//! The commands that clients send to the market.

use vstd::prelude::*;

verus! {

/// An order to enter, as the client sends it: the security by name, the
/// price in ticks, and the side as a character, `B` for a bid and `S` for
/// an ask.
#[derive(Debug)]
pub struct NewOrder {
    pub user_id: u64,
    pub user_order_id: u64,
    pub symbol: String,
    pub price: u64,
    pub quantity: u64,
    pub side: char,
}

/// The identity of an order to cancel.
#[derive(Debug)]
pub struct CancelOrder {
    pub user_id: u64,
    pub user_order_id: u64,
}

/// A command to the market.
#[derive(Debug)]
pub enum Command {
    /// Enter a new limit order.
    New(NewOrder),
    /// Cancel the resting order of the given identity.
    Cancel(CancelOrder),
    /// Drop all resting orders.
    Flush,
}

/// The view of a new order: the same data, with the name of the security as
/// a sequence of characters.
pub struct NewOrderView {
    pub user_id: u64,
    pub user_order_id: u64,
    pub symbol: Seq<char>,
    pub price: u64,
    pub quantity: u64,
    pub side: char,
}

/// The view of a command.
pub enum CommandView {
    New(NewOrderView),
    Cancel(CancelOrder),
    Flush,
}

impl View for NewOrder {
    type V = NewOrderView;

    open spec fn view(&self) -> NewOrderView {
        NewOrderView {
            user_id: self.user_id,
            user_order_id: self.user_order_id,
            symbol: self.symbol@,
            price: self.price,
            quantity: self.quantity,
            side: self.side,
        }
    }
}

impl View for Command {
    type V = CommandView;

    open spec fn view(&self) -> CommandView {
        match self {
            Command::New(order) => CommandView::New(order@),
            Command::Cancel(cancel) => CommandView::Cancel(*cancel),
            Command::Flush => CommandView::Flush,
        }
    }
}

} // verus!
