//! An interface (screen) sends its orders one at a time and reacts to what
//! comes back for each.
use vstd::prelude::*;
use vstd::string::StringExecFns;
use crate::constant::{ORDER_STATUS_CAPTURE, ORDER_STATUS_COMMIT};
use crate::order::{same_but_outcome, Order, OrderStatus};

verus! {

/// The orders of a screen and how far it got through them.
pub struct OrderQueue {
    orders: Vec<Order>,
    index_current_order: usize,
    all_orders_completed: bool,
}

impl OrderQueue {
    /// The position of the next order to send never passes the end.
    #[verifier::type_invariant]
    spec fn position_within(&self) -> bool {
        self.index_current_order <= self.orders.len()
    }

    /// The orders read from the screen's orders file.
    pub closed spec fn queued(&self) -> Seq<Order> {
        self.orders@
    }

    /// The position of the next order to send.
    pub closed spec fn position(&self) -> nat {
        self.index_current_order as nat
    }

    /// Whether every order was sent.
    pub closed spec fn completed(&self) -> bool {
        self.all_orders_completed
    }

    /// No order has been sent yet.
    pub fn new(orders: Vec<Order>) -> (q: OrderQueue)
        ensures
            q.queued() == orders@,
            q.position() == 0,
            !q.completed(),
    {
        OrderQueue { orders, index_current_order: 0, all_orders_completed: false }
    }

    /// The position of the next order to send.
    pub fn index_current_order(&self) -> (i: usize)
        ensures
            i == self.position(),
            i <= self.queued().len(),
    {
        proof {
            use_type_invariant(self);
        }
        self.index_current_order
    }

    /// Whether every order was sent.
    pub fn all_orders_completed(&self) -> (done: bool)
        ensures
            done == self.completed(),
    {
        self.all_orders_completed
    }

    /// The next order to send, marked in progress with its payment to be
    /// captured; `None` once every order was sent, which completes the queue.
    pub fn send_next_order(&mut self) -> (next: Option<Order>)
        ensures
            final(self).queued() == old(self).queued(),
            final(self).position() <= final(self).queued().len(),
            old(self).position() == old(self).queued().len() ==> {
                &&& next is None
                &&& final(self).completed()
                &&& final(self).position() == old(self).position()
            },
            old(self).position() < old(self).queued().len() ==> {
                &&& next is Some
                &&& same_but_outcome(old(self).queued()[old(self).position() as int], next->Some_0)
                &&& next->Some_0.status == OrderStatus::InProgress
                &&& next->Some_0.message@ == ORDER_STATUS_CAPTURE@
                &&& final(self).position() == old(self).position() + 1
                &&& final(self).completed() == old(self).completed()
            },
    {
        proof {
            use_type_invariant(&*self);
        }
        if self.index_current_order == self.orders.len() {
            self.all_orders_completed = true;
            return None;
        }
        let mut current_order = self.orders[self.index_current_order].duplicate();
        current_order.status = OrderStatus::InProgress;
        current_order.message = String::from_str(ORDER_STATUS_CAPTURE);
        self.index_current_order = self.index_current_order + 1;
        Some(current_order)
    }
}

/// What an interface does with an order it receives.
#[derive(Debug, Clone, Copy, PartialEq, Eq, Structural)]
pub enum InterfaceRoute {
    /// Its payment was captured: pass it to the order manager.
    ToManager,
    /// It failed: report it and send the next order.
    Failed,
    /// It is ready: have its payment committed, then send the next order.
    Commit,
}

/// What an interface does with an order in this status.
pub fn route_received_order(status: OrderStatus) -> (r: InterfaceRoute)
    ensures
        r == match status {
            OrderStatus::InProgress => InterfaceRoute::ToManager,
            OrderStatus::Failed => InterfaceRoute::Failed,
            _ => InterfaceRoute::Commit,
        },
{
    match status {
        OrderStatus::InProgress => InterfaceRoute::ToManager,
        OrderStatus::Failed => InterfaceRoute::Failed,
        _ => InterfaceRoute::Commit,
    }
}

/// The order with its payment to be committed.
pub fn commit_order(order: Order) -> (committed: Order)
    ensures
        same_but_outcome(order, committed),
        committed.status == order.status,
        committed.message@ == ORDER_STATUS_COMMIT@,
{
    let mut committed = order;
    committed.message = String::from_str(ORDER_STATUS_COMMIT);
    committed
}

} // verus!
