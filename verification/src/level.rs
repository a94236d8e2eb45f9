//! A price level: the queue of the orders that rest at one price on one side.

use vstd::prelude::*;
use std::collections::VecDeque;
use crate::order::{Order, Side};
use crate::Price;

verus! {

/// The orders that rest at one price on one side of a book, in the order in
/// which they came.
///
/// Its view is the sequence of these orders, newest first: an order that
/// comes in is put in front, and the last one is the head of the queue, the
/// oldest order, which trades first.
pub struct Level {
    price: Price,
    side: Side,
    orders: VecDeque<Order>,
}

impl View for Level {
    type V = Seq<Order>;

    closed spec fn view(&self) -> Seq<Order> {
        self.orders@
    }
}

/// Whether every order of `queue` sits on `side` at `price`.
pub open spec fn all_at(queue: Seq<Order>, price: Price, side: Side) -> bool {
    forall|i: int| 0 <= i < queue.len() ==> (#[trigger] queue[i]).side() == side && queue[i].price() == price
}

/// The first place in `queue` at which an order with the identity `id`
/// stands, if there is one.
pub open spec fn position_of(queue: Seq<Order>, id: (u64, u64)) -> Option<int>
    decreases queue.len(),
{
    if queue.len() == 0 {
        None
    } else if queue[0].id() == id {
        Some(0)
    } else {
        match position_of(queue.drop_first(), id) {
            Some(i) => Some(i + 1),
            None => None,
        }
    }
}

/// `position_of` finds the first order with the identity, and finds none
/// only where there is none.
pub proof fn lemma_position_of(queue: Seq<Order>, id: (u64, u64))
    ensures
        match position_of(queue, id) {
            Some(i) => 0 <= i < queue.len() && queue[i].id() == id && forall|j: int|
                0 <= j < i ==> (#[trigger] queue[j]).id() != id,
            None => forall|j: int| 0 <= j < queue.len() ==> (#[trigger] queue[j]).id() != id,
        },
    decreases queue.len(),
{
    if queue.len() > 0 && queue[0].id() != id {
        let rest = queue.drop_first();
        lemma_position_of(rest, id);
        match position_of(rest, id) {
            Some(i) => {
                assert forall|j: int| 0 <= j < i + 1 implies (#[trigger] queue[j]).id() != id by {
                    if j > 0 {
                        assert(queue[j] == rest[j - 1]);
                    }
                }
            },
            None => {
                assert forall|j: int| 0 <= j < queue.len() implies (#[trigger] queue[j]).id()
                    != id by {
                    if j > 0 {
                        assert(queue[j] == rest[j - 1]);
                    }
                }
            },
        }
    }
}

/// `VecDeque::back_mut` of std: a mutable reference to the last element, or
/// none where the deque is empty. What is written through the reference
/// replaces the last element, and nothing else changes.
#[verifier::external_body]
fn back_mut(orders: &mut VecDeque<Order>) -> (back: Option<&mut Order>)
    ensures
        match back {
            Some(order) => {
                &&& old(orders)@.len() > 0
                &&& *order == old(orders)@.last()
                &&& final(orders)@ == old(orders)@.drop_last().push(*final(order))
            },
            None => old(orders)@.len() == 0 && final(orders)@ == old(orders)@,
        },
{
    orders.back_mut()
}

impl Level {
    /// The price at which the orders of this level rest.
    pub closed spec fn spec_price(&self) -> Price {
        self.price
    }

    /// The side of the book this level belongs to.
    pub closed spec fn spec_side(&self) -> Side {
        self.side
    }

    /// Every order of the level sits on the level's side at the level's
    /// price.
    pub open spec fn wf(&self) -> bool {
        all_at(self@, self.price(), self.side())
    }

    /// An empty level at `price` on `side`.
    pub fn new(price: Price, side: Side) -> (level: Self)
        ensures
            level@ == Seq::<Order>::empty(),
            level.price() == price,
            level.side() == side,
            level.wf(),
    {
        Self { price, side, orders: VecDeque::new() }
    }

    /// Puts `order` at the end of the queue: it is the newest, and trades
    /// after all that are there.
    pub fn add(&mut self, order: Order)
        requires
            order.side() == old(self).side(),
            order.price() == old(self).price(),
        ensures
            final(self)@ == seq![order] + old(self)@,
            final(self).price() == old(self).price(),
            final(self).side() == old(self).side(),
            old(self).wf() ==> final(self).wf(),
    {
        self.orders.push_front(order);
    }

    /// Takes out the first order with the given identity and returns it. The
    /// others keep their places. Where no order has that identity nothing
    /// changes.
    pub fn remove(&mut self, user_id: u64, user_order_id: u64) -> (removed: Option<Order>)
        ensures
            final(self).price() == old(self).price(),
            final(self).side() == old(self).side(),
            old(self).wf() ==> final(self).wf(),
            match position_of(old(self)@, (user_id, user_order_id)) {
                Some(i) => removed == Some(old(self)@[i]) && final(self)@ == old(self)@.remove(i),
                None => removed.is_none() && final(self)@ == old(self)@,
            },
    {
        let mut idx: usize = 0;
        while idx < self.orders.len()
            invariant
                idx <= self.orders@.len(),
                *self == *old(self),
                forall|j: int| 0 <= j < idx ==> (#[trigger] self.orders@[j]).id() != (user_id, user_order_id),
            decreases self.orders@.len() - idx,
        {
            let order = &self.orders[idx];
            if order.user_id() == user_id && order.user_order_id() == user_order_id {
                proof {
                    lemma_position_of(self@, (user_id, user_order_id));
                }
                return self.orders.remove(idx);
            }
            idx = idx + 1;
        }
        proof {
            lemma_position_of(self@, (user_id, user_order_id));
        }
        None
    }

    /// Whether an order with the given identity rests at this level.
    pub fn contains(&self, user_id: u64, user_order_id: u64) -> (found: bool)
        ensures
            found == position_of(self@, (user_id, user_order_id)).is_some(),
    {
        let mut idx: usize = 0;
        while idx < self.orders.len()
            invariant
                idx <= self.orders@.len(),
                forall|j: int|
                    0 <= j < idx ==> (#[trigger] self.orders@[j]).id() != (user_id, user_order_id),
            decreases self.orders@.len() - idx,
        {
            let order = &self.orders[idx];
            if order.user_id() == user_id && order.user_order_id() == user_order_id {
                proof {
                    lemma_position_of(self@, (user_id, user_order_id));
                }
                return true;
            }
            idx = idx + 1;
        }
        proof {
            lemma_position_of(self@, (user_id, user_order_id));
        }
        false
    }

    /// The price of this level.
    #[verifier::when_used_as_spec(spec_price)]
    pub fn price(&self) -> (price: Price)
        ensures
            price == self.spec_price(),
    {
        self.price
    }

    /// The side of the book this level belongs to.
    #[verifier::when_used_as_spec(spec_side)]
    pub fn side(&self) -> (side: Side)
        ensures
            side == self.spec_side(),
    {
        self.side
    }

    /// The queue, newest order first.
    pub fn orders(&self) -> (orders: &VecDeque<Order>)
        ensures
            orders@ == self@,
    {
        &self.orders
    }

    /// The queue, newest order first, to be changed in place.
    pub fn orders_mut(&mut self) -> (orders: &mut VecDeque<Order>)
        ensures
            orders@ == old(self)@,
            final(self)@ == final(orders)@,
            final(self).price() == old(self).price(),
            final(self).side() == old(self).side(),
    {
        &mut self.orders
    }

    /// The number of orders that rest at this level.
    pub fn len(&self) -> (len: usize)
        ensures
            len == self@.len(),
    {
        self.orders.len()
    }

    /// The head of the queue: the oldest order, which trades first.
    pub fn peek_head(&self) -> (head: &Order)
        requires
            self@.len() > 0,
        ensures
            *head == self@.last(),
    {
        &self.orders[self.orders.len() - 1]
    }

    /// The head of the queue, to be changed in place.
    pub fn head_mut(&mut self) -> (head: &mut Order)
        requires
            old(self)@.len() > 0,
        ensures
            *head == old(self)@.last(),
            final(self)@ == old(self)@.drop_last().push(*final(head)),
            final(self).price() == old(self).price(),
            final(self).side() == old(self).side(),
    {
        back_mut(&mut self.orders).unwrap()
    }

    /// Takes the head of the queue out and returns it; none where the level
    /// is empty.
    pub fn pop_head(&mut self) -> (head: Option<Order>)
        ensures
            final(self).price() == old(self).price(),
            final(self).side() == old(self).side(),
            old(self).wf() ==> final(self).wf(),
            match head {
                Some(order) => old(self)@.len() > 0 && order == old(self)@.last() && final(self)@
                    == old(self)@.drop_last(),
                None => old(self)@.len() == 0 && final(self)@ == old(self)@,
            },
    {
        self.orders.pop_back()
    }

    /// Whether no order rests at this level.
    pub fn is_empty(&self) -> (empty: bool)
        ensures
            empty == (self@.len() == 0),
    {
        self.orders.len() == 0
    }
}

} // verus!
