//! An in-memory continuous-auction limit order book.
//!
//! Orders rest in price levels, one queue per price and side. An incoming
//! order is crossed against the best-priced levels of the opposite side
//! before any remainder rests. A market holds one book per security, and an
//! index from the client's identity of an order to the place where the order
//! rests.
//!
//! Every function carries a contract over the mathematical view of the data
//! it works on: a level is the sequence of its orders, a book is two maps
//! from price to such a sequence, a market is a map from security to book
//! together with the index.
//!
//! - [`order`], [`trade`]: orders, and the trade of one order against
//!   another;
//! - [`level`]: the queue of the orders at one price;
//! - [`matcher`]: the strategies by which an incoming order is matched
//!   against a level, and time priority, the one that is there;
//! - [`book`]: the two sides of one security, and the crossing of an
//!   incoming order against them;
//! - [`market`]: the books of all securities, and the index of the resting
//!   orders;
//! - [`command`], [`server`]: the commands of the clients, and the engine
//!   that applies them to a market;
//! - [`symbols`]: the table that gives each security its handle;
//! - [`csv`]: commands as lines of text.
//!
//! What holds of books and markets whatever the orders are is proved in
//! [`book::laws`] and [`market::laws`].

use vstd::prelude::*;

pub mod book;
pub mod command;
pub mod csv;
pub mod level;
pub mod market;
pub mod matcher;
pub mod order;
pub mod prelude;
pub mod server;
pub mod symbols;
pub mod trade;

verus! {

/// A price, in ticks. Prices are totally ordered and compared exactly.
pub type Price = u64;

/// The handle of a security. Two orders are for the same security exactly
/// when their handles are equal.
pub type Symbol = usize;

} // verus!
