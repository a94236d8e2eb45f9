//! The record of one execution between a buy order and a sell order.

use vstd::prelude::*;
use crate::{Price, Symbol};

verus! {

/// One execution: `quantity` units of `symbol` changed hands at `price`
/// between the buy order and the sell order that the identities name.
#[derive(Debug)]
pub struct Trade {
    pub user_id_buy: u64,
    pub user_order_id_buy: u64,
    pub user_id_sell: u64,
    pub user_order_id_sell: u64,
    pub symbol: Symbol,
    pub price: Price,
    pub quantity: u64,
}

/// The sum of the quantities of `trades`.
pub open spec fn total_quantity(trades: Seq<Trade>) -> nat
    decreases trades.len(),
{
    if trades.len() == 0 {
        0
    } else {
        total_quantity(trades.drop_last()) + trades.last().quantity as nat
    }
}

/// The total of two runs of trades is the sum of their totals.
pub proof fn lemma_total_quantity_concat(a: Seq<Trade>, b: Seq<Trade>)
    ensures
        total_quantity(a + b) == total_quantity(a) + total_quantity(b),
    decreases b.len(),
{
    if b.len() == 0 {
        assert(a + b == a);
    } else {
        assert((a + b).drop_last() == a + b.drop_last());
        lemma_total_quantity_concat(a, b.drop_last());
    }
}

} // verus!
