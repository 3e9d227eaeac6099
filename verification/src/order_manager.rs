//! The order manager's bookkeeping: which interface sent each screen's
//! orders, which robots are known and which of them are free, and where each
//! message it receives goes next.
use std::collections::HashMap;
use rand::rngs::ThreadRng;
use rand::Rng;
use vstd::prelude::*;
use crate::logic::{get_robot_id, spec_robot_id, ConnectionRobot, StatusRobot};
use crate::order::{Order, OrderStatus};

verus! {

broadcast use vstd::std_specs::hash::group_hash_axioms;

#[verifier::external_type_specification]
#[verifier::external_body]
pub struct ExThreadRng(ThreadRng);

/// `rand::thread_rng`: the random generator of the calling thread. Nothing
/// is claimed of it.
#[verifier::external_body]
fn new_thread_rng() -> ThreadRng {
    rand::thread_rng()
}

/// `Rng::gen_range(0..bound)` on a `ThreadRng`.
/// Claimed: the result lies in `0..bound`; it depends on chance and nothing
/// more is said of it. The range is not empty, so it does not panic.
#[verifier::external_body]
fn random_below(rng: &mut ThreadRng, bound: usize) -> (r: usize)
    requires
        bound > 0,
    ensures
        r < bound,
{
    rng.gen_range(0..bound)
}

/// Records the address of the interface of a screen the first time one of
/// its orders arrives.
pub fn register_interface(interfaces: &mut HashMap<usize, String>, screen_id: usize, address: String)
    ensures
        final(interfaces)@ == if old(interfaces)@.contains_key(screen_id) {
            old(interfaces)@
        } else {
            old(interfaces)@.insert(screen_id, address)
        },
{
    if !interfaces.contains_key(&screen_id) {
        interfaces.insert(screen_id, address);
    }
}

/// The address of the interface of a screen.
pub fn interface_address(interfaces: &HashMap<usize, String>, screen_id: usize) -> (r: Option<String>)
    ensures
        match r {
            Some(a) => interfaces@.contains_key(screen_id) && a@ == interfaces@[screen_id]@,
            None => !interfaces@.contains_key(screen_id),
        },
{
    match interfaces.get(&screen_id) {
        Some(a) => Some(a.clone()),
        None => None,
    }
}

/// `b` is robot `a` in state `status`.
pub open spec fn robot_with_status(a: ConnectionRobot, b: ConnectionRobot, status: StatusRobot) -> bool {
    &&& b.id == a.id
    &&& b.address@ == a.address@
    &&& b.status == status
}

/// Sets robot `index` to `status`.
pub fn set_robot_status(robots: &mut Vec<ConnectionRobot>, index: usize, status: StatusRobot)
    requires
        index < old(robots).len(),
    ensures
        final(robots).len() == old(robots).len(),
        robot_with_status(old(robots)@[index as int], final(robots)@[index as int], status),
        forall|i: int| 0 <= i < old(robots).len() && i != index ==> final(robots)@[i] == old(robots)@[i],
{
    let updated = ConnectionRobot {
        id: robots[index].id,
        address: robots[index].address.clone(),
        status,
    };
    robots.set(index, updated);
}

/// Sets every robot with id `id` free again.
pub fn free_robots_with_id(robots: &mut Vec<ConnectionRobot>, id: usize)
    ensures
        final(robots).len() == old(robots).len(),
        forall|i: int|
            0 <= i < old(robots).len() ==> if (#[trigger] old(robots)@[i]).id == id {
                robot_with_status(old(robots)@[i], final(robots)@[i], StatusRobot::Free)
            } else {
                final(robots)@[i] == old(robots)@[i]
            },
{
    let ghost start = robots@;
    let mut i: usize = 0;
    while i < robots.len()
        invariant
            robots.len() == start.len(),
            i <= robots.len(),
            forall|j: int|
                0 <= j < i ==> if (#[trigger] start[j]).id == id {
                    robot_with_status(start[j], robots@[j], StatusRobot::Free)
                } else {
                    robots@[j] == start[j]
                },
            forall|j: int| i <= j < robots.len() ==> robots@[j] == start[j],
        decreases robots.len() - i,
    {
        if robots[i].id == id {
            set_robot_status(robots, i, StatusRobot::Free);
        }
        i = i + 1;
    }
}

/// Why an address could not be read as a robot's.
#[derive(Debug, Clone, Copy, PartialEq, Eq, Structural)]
pub enum RobotAddressError {
    /// The address does not end with a decimal digit.
    NoRobotId,
}

/// Handles a text message: a robot's greeting adds the robot, free, with the
/// id its address ends with; other texts change nothing.
pub fn register_robot(robots: &mut Vec<ConnectionRobot>, message: &String, peer_address: &String) -> (r: Result<bool, RobotAddressError>)
    ensures
        message@ != crate::constant::HELLO_ROBOT@ ==> r == Ok::<bool, RobotAddressError>(false)
            && final(robots)@ == old(robots)@,
        message@ == crate::constant::HELLO_ROBOT@ ==> match spec_robot_id(peer_address@) {
            None => r == Err::<bool, RobotAddressError>(RobotAddressError::NoRobotId)
                && final(robots)@ == old(robots)@,
            Some(id) => {
                &&& r == Ok::<bool, RobotAddressError>(true)
                &&& final(robots)@.len() == old(robots)@.len() + 1
                &&& final(robots)@.take(old(robots)@.len() as int) == old(robots)@
                &&& final(robots)@.last().id == id
                &&& final(robots)@.last().address@ == peer_address@
                &&& final(robots)@.last().status == StatusRobot::Free
            },
        },
{
    let hello = String::from_str(crate::constant::HELLO_ROBOT);
    if *message != hello {
        return Ok(false);
    }
    match get_robot_id(peer_address) {
        None => Err(RobotAddressError::NoRobotId),
        Some(id) => {
            let ghost prev = robots@;
            robots.push(ConnectionRobot { id, address: peer_address.clone(), status: StatusRobot::Free });
            assert(robots@.take(prev.len() as int) =~= prev);
            Ok(true)
        },
    }
}

/// The first free robot, if any.
pub open spec fn first_free(robots: Seq<ConnectionRobot>, i: int) -> bool {
    &&& 0 <= i < robots.len()
    &&& robots[i].status == StatusRobot::Free
    &&& forall|j: int| 0 <= j < i ==> (#[trigger] robots[j]).status != StatusRobot::Free
}

/// The position of the first free robot.
pub fn first_free_robot(robots: &Vec<ConnectionRobot>) -> (r: Option<usize>)
    ensures
        match r {
            Some(i) => first_free(robots@, i as int),
            None => forall|j: int| 0 <= j < robots.len() ==> (#[trigger] robots@[j]).status != StatusRobot::Free,
        },
{
    let mut i: usize = 0;
    while i < robots.len()
        invariant
            i <= robots.len(),
            forall|j: int| 0 <= j < i ==> (#[trigger] robots@[j]).status != StatusRobot::Free,
        decreases robots.len() - i,
    {
        if robots[i].status == StatusRobot::Free {
            return Some(i);
        }
        i = i + 1;
    }
    None
}

/// The robot to give the next order to: the first free one, or one chosen at
/// random when all are busy.
pub fn choose_robot_index(robots: &Vec<ConnectionRobot>) -> (index: usize)
    requires
        robots.len() > 0,
    ensures
        index < robots.len(),
        (exists|i: int| 0 <= i < robots.len() && (#[trigger] robots@[i]).status == StatusRobot::Free)
            ==> first_free(robots@, index as int),
{
    match first_free_robot(robots) {
        Some(i) => i,
        None => {
            let mut rng = new_thread_rng();
            random_below(&mut rng, robots.len())
        },
    }
}

/// The id and the address of robot `index`.
pub fn robot_at(robots: &Vec<ConnectionRobot>, index: usize) -> (r: (usize, String))
    requires
        index < robots.len(),
    ensures
        r.0 == robots@[index as int].id,
        r.1@ == robots@[index as int].address@,
{
    (robots[index].id, robots[index].address.clone())
}

/// Where the order manager sends an order it receives.
#[derive(Debug, Clone, Copy, PartialEq, Eq, Structural)]
pub enum ManagerRoute {
    /// A new order from an interface: to a robot.
    ToRobots,
    /// A finished or failed order from a robot: back to its interface.
    ToInterfaces,
    /// Anything else: nowhere.
    Ignore,
}

/// Handles an order received from `peer_address`: an order in progress comes
/// from an interface, which is recorded for its screen, and goes to the
/// robots; a failed or prepared order comes from a robot, which is free
/// again, and goes back to the interfaces.
pub fn on_order_received(
    interfaces: &mut HashMap<usize, String>,
    robots: &mut Vec<ConnectionRobot>,
    order: &Order,
    peer_address: &String,
) -> (r: Result<ManagerRoute, RobotAddressError>)
    ensures
        order.status == OrderStatus::InProgress ==> {
            &&& r == Ok::<ManagerRoute, RobotAddressError>(ManagerRoute::ToRobots)
            &&& final(robots)@ == old(robots)@
            &&& final(interfaces)@.dom() == old(interfaces)@.dom().insert(order.screen_id)
            &&& old(interfaces)@.contains_key(order.screen_id) ==> final(interfaces)@ == old(interfaces)@
            &&& !old(interfaces)@.contains_key(order.screen_id) ==> final(interfaces)@[order.screen_id]@
                == peer_address@
            &&& forall|k: usize|
                k != order.screen_id && #[trigger] old(interfaces)@.contains_key(k)
                    ==> final(interfaces)@[k] == old(interfaces)@[k]
        },
        (order.status == OrderStatus::Failed || order.status == OrderStatus::OrderReadyToCharge)
            ==> {
            &&& final(interfaces)@ == old(interfaces)@
            &&& match spec_robot_id(peer_address@) {
                None => r == Err::<ManagerRoute, RobotAddressError>(RobotAddressError::NoRobotId)
                    && final(robots)@ == old(robots)@,
                Some(id) => {
                    &&& r == Ok::<ManagerRoute, RobotAddressError>(ManagerRoute::ToInterfaces)
                    &&& final(robots).len() == old(robots).len()
                    &&& forall|i: int|
                        0 <= i < old(robots).len() ==> if (#[trigger] old(robots)@[i]).id == id {
                            robot_with_status(old(robots)@[i], final(robots)@[i], StatusRobot::Free)
                        } else {
                            final(robots)@[i] == old(robots)@[i]
                        }
                },
            }
        },
        (order.status == OrderStatus::PendingOrder || order.status == OrderStatus::Done) ==> {
            &&& r == Ok::<ManagerRoute, RobotAddressError>(ManagerRoute::Ignore)
            &&& final(interfaces)@ == old(interfaces)@
            &&& final(robots)@ == old(robots)@
        },
{
    match order.status {
        OrderStatus::InProgress => {
            register_interface(interfaces, order.screen_id, peer_address.clone());
            Ok(ManagerRoute::ToRobots)
        },
        OrderStatus::Failed | OrderStatus::OrderReadyToCharge => match get_robot_id(peer_address) {
            None => Err(RobotAddressError::NoRobotId),
            Some(id) => {
                free_robots_with_id(robots, id);
                Ok(ManagerRoute::ToInterfaces)
            },
        },
        _ => Ok(ManagerRoute::Ignore),
    }
}

} // verus!
