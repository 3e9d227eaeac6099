//! Addresses, actor names and the messages that mark the phases of a payment.
use vstd::prelude::*;

verus! {

/// Prefix of the address of an interface; its id follows.
pub const ADDRESS_INTERFACE: &'static str = "127.0.0.1:1000";
/// Prefix of the address of a gateway; its id follows.
pub const ADDRESS_GATEWAY: &'static str = "127.0.0.1:2000";
/// Prefix of the address of a robot; its id follows.
pub const ADDRESS_ROBOT: &'static str = "127.0.0.1:3000";
/// Address of the order manager.
pub const ADDRESS_ORDER_MANAGER: &'static str = "127.0.0.1:4000";
/// Address of the ice-cream taste repository.
pub const ADDRESS_ICE_CREAM_TASTE_REPO: &'static str = "127.0.0.1:5000";
/// Prefix of the address of a member of the token ring; its id follows.
pub const ADDRESS_RING: &'static str = "127.0.0.1:1345";
/// Message of an order whose payment is to be captured.
pub const ORDER_STATUS_CAPTURE: &'static str = "CAPTURE";
/// Message of an order whose payment was captured and is to be prepared.
pub const ORDER_STATUS_PREPARE: &'static str = "PREPARE";
/// Message of an order whose payment is to be committed.
pub const ORDER_STATUS_COMMIT: &'static str = "COMMIT";
/// Message of an order whose payment is to be released.
pub const ORDER_STATUS_ABORT: &'static str = "ABORT";
/// The greeting a robot sends to the order manager.
pub const HELLO_ROBOT: &'static str = "Hello Robot";

} // verus!
