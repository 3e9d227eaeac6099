//! A robot's routing of the orders it receives.
use vstd::prelude::*;
use crate::order::OrderStatus;

verus! {

/// What a robot does with an order it receives.
#[derive(Debug, Clone, Copy, PartialEq, Eq, Structural)]
pub enum RobotRoute {
    /// A new order: ask the repository for its tastes.
    ToRepository,
    /// A failed order: back to the order manager.
    ToManager,
    /// A prepared order: cool the engine, then back to the order manager.
    CoolThenToManager,
    /// Anything else: nothing.
    Ignore,
}

/// What a robot does with an order in this status.
pub fn route_robot_order(status: OrderStatus) -> (r: RobotRoute)
    ensures
        r == match status {
            OrderStatus::InProgress => RobotRoute::ToRepository,
            OrderStatus::Failed => RobotRoute::ToManager,
            OrderStatus::OrderReadyToCharge => RobotRoute::CoolThenToManager,
            _ => RobotRoute::Ignore,
        },
{
    match status {
        OrderStatus::InProgress => RobotRoute::ToRepository,
        OrderStatus::Failed => RobotRoute::ToManager,
        OrderStatus::OrderReadyToCharge => RobotRoute::CoolThenToManager,
        _ => RobotRoute::Ignore,
    }
}

} // verus!
