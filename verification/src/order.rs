//! An ice-cream order and the phases it goes through.
use vstd::prelude::*;
use crate::keyed_table::KeyedTable;

verus! {

/// The phase of an order.
#[derive(Debug, Clone, Copy, PartialEq, Eq, Structural)]
pub enum OrderStatus {
    /// Read from the orders file, not sent yet.
    PendingOrder,
    /// Being paid for or prepared.
    InProgress,
    /// Rejected: payment, stock or a robot failed.
    Failed,
    /// Prepared; its payment can be committed.
    OrderReadyToCharge,
    /// Paid for.
    Done,
}

/// An order of one screen.
#[derive(Debug)]
pub struct Order {
    /// The screen (interface) that took the order.
    pub screen_id: usize,
    /// The number of the order on its screen.
    pub order_id: usize,
    /// The money on the card.
    pub card_amount: usize,
    /// The grams of ice cream ordered.
    pub total_mass: usize,
    /// The grams ordered of each taste.
    pub tastes: KeyedTable<usize>,
    /// The phase of the order.
    pub status: OrderStatus,
    /// What the last actor that handled the order says of it.
    pub message: String,
}

/// `b` is `a`, but for its status and message.
pub open spec fn same_but_outcome(a: Order, b: Order) -> bool {
    &&& b.screen_id == a.screen_id
    &&& b.order_id == a.order_id
    &&& b.card_amount == a.card_amount
    &&& b.total_mass == a.total_mass
    &&& b.tastes.entries() == a.tastes.entries()
}

impl Order {
    /// A copy of the order.
    pub fn duplicate(&self) -> (copy: Order)
        ensures
            same_but_outcome(*self, copy),
            copy.status == self.status,
            copy.message@ == self.message@,
    {
        Order {
            screen_id: self.screen_id,
            order_id: self.order_id,
            card_amount: self.card_amount,
            total_mass: self.total_mass,
            tastes: self.tastes.copy_table(),
            status: self.status,
            message: self.message.clone(),
        }
    }
}

} // verus!
