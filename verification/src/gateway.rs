//! The payment gateway's routing of the orders it receives and the outcome
//! of a payment once the order is prepared.
use vstd::prelude::*;
use crate::constant::ORDER_STATUS_COMMIT;
use crate::order::{same_but_outcome, Order, OrderStatus};

verus! {

/// What the gateway does with an order it receives.
#[derive(Debug, Clone, Copy, PartialEq, Eq, Structural)]
pub enum GatewayRoute {
    /// A new order: capture its payment.
    CapturePayment,
    /// A prepared order: commit or release its payment.
    Settle,
    /// Anything else: nothing.
    Ignore,
}

/// What the gateway does with an order in this status.
pub fn route_gateway_order(status: OrderStatus) -> (r: GatewayRoute)
    ensures
        r == match status {
            OrderStatus::InProgress => GatewayRoute::CapturePayment,
            OrderStatus::OrderReadyToCharge => GatewayRoute::Settle,
            _ => GatewayRoute::Ignore,
        },
{
    match status {
        OrderStatus::InProgress => GatewayRoute::CapturePayment,
        OrderStatus::OrderReadyToCharge => GatewayRoute::Settle,
        _ => GatewayRoute::Ignore,
    }
}

/// The outcome of a prepared order: done when its payment is to be
/// committed, failed otherwise.
pub fn settle_order(order: Order) -> (settled: Order)
    ensures
        same_but_outcome(order, settled),
        settled.message@ == order.message@,
        settled.status == if order.message@ == ORDER_STATUS_COMMIT@ {
            OrderStatus::Done
        } else {
            OrderStatus::Failed
        },
{
    let mut settled = order;
    let commit = ORDER_STATUS_COMMIT.to_owned();
    settled.status = OrderStatus::Failed;
    if settled.message == commit {
        settled.status = OrderStatus::Done;
    }
    settled
}

} // verus!
