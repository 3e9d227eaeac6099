//! What the actors of the shop share: addresses from ids and back, the id on
//! the command line, and the robots known to the order manager.
use vstd::prelude::*;
use vstd::string::StringExecFns;
use crate::constant::{ADDRESS_GATEWAY, ADDRESS_INTERFACE, ADDRESS_ROBOT};
use crate::json::{parse_json_document, spec_as_u64, spec_element, spec_field, spec_json_document, JsonValue};
use crate::keyed_table::KeyedTable;
use crate::order::{Order, OrderStatus};
use crate::text::{decimal, parse_usize, spec_parse_usize, usize_to_string};

verus! {

/// The state of a robot as the order manager sees it.
#[derive(Debug, Clone, Copy, PartialEq, Eq, Structural)]
pub enum StatusRobot {
    /// Waiting for an order.
    Free,
    /// Preparing an order.
    Busy,
    /// Out of service.
    Fallen,
}

/// A robot known to the order manager.
#[derive(Debug, Clone)]
pub struct ConnectionRobot {
    /// The robot's id.
    pub id: usize,
    /// The robot's address.
    pub address: String,
    /// The robot's state.
    pub status: StatusRobot,
}

/// `prefix` followed by the decimal notation of `id`.
pub fn prefixed_id(prefix: &str, id: usize) -> (addr: String)
    ensures
        addr@ == prefix@ + decimal(id as nat),
{
    let number = usize_to_string(id);
    let mut addr = String::from_str(prefix);
    addr.append(number.as_str());
    addr
}

/// The address of interface `id`.
pub fn id_to_addr_interface(id: usize) -> (addr: String)
    ensures
        addr@ == ADDRESS_INTERFACE@ + decimal(id as nat),
{
    prefixed_id(ADDRESS_INTERFACE, id)
}

/// The address of gateway `id`.
pub fn id_to_addr_gateway(id: usize) -> (addr: String)
    ensures
        addr@ == ADDRESS_GATEWAY@ + decimal(id as nat),
{
    prefixed_id(ADDRESS_GATEWAY, id)
}

/// The address of robot `id`.
pub fn id_to_addr_robot(id: usize) -> (addr: String)
    ensures
        addr@ == ADDRESS_ROBOT@ + decimal(id as nat),
{
    prefixed_id(ADDRESS_ROBOT, id)
}

/// The value of an ASCII decimal digit, as `char::to_digit(10)`.
pub open spec fn digit_value(c: char) -> Option<usize> {
    if '0' <= c <= '9' {
        Some((c as int - 48) as usize)
    } else {
        None
    }
}

/// The robot id an address ends with: the value of its last character, which
/// must be a decimal digit.
pub open spec fn spec_robot_id(address: Seq<char>) -> Option<usize> {
    if address.len() == 0 {
        None
    } else {
        digit_value(address.last())
    }
}

/// The id of the robot at `robot_address`: its last character read as a
/// decimal digit; `None` when there is no such digit.
pub fn get_robot_id(robot_address: &String) -> (id: Option<usize>)
    ensures
        id == spec_robot_id(robot_address@),
{
    let chars = crate::text::chars_of(robot_address);
    if chars.len() == 0 {
        return None;
    }
    let c = chars[chars.len() - 1];
    if '0' <= c && c <= '9' {
        Some((c as u32 - 48) as usize)
    } else {
        None
    }
}

/// The id read back from the address of robot `id` is its last decimal digit:
/// the id itself for the single-digit ids that robots are given.
pub proof fn lemma_robot_id_of_address(id: usize)
    ensures
        spec_robot_id(ADDRESS_ROBOT@ + decimal(id as nat)) == Some(id % 10),
        id < 10 ==> spec_robot_id(ADDRESS_ROBOT@ + decimal(id as nat)) == Some(id),
{
    crate::text::lemma_decimal_last(id as nat);
    let a = ADDRESS_ROBOT@ + decimal(id as nat);
    assert(a.last() == decimal(id as nat).last());
}

/// Why the id of an actor could not be taken from its command line.
#[derive(Debug, Clone, Copy, PartialEq, Eq, Structural)]
pub enum IdArgsError {
    /// Not exactly one argument after the program name.
    WrongArgumentCount,
    /// The argument is not a number.
    InvalidNumber,
}

/// The id of an actor: the only argument after the program name.
pub fn get_id_args(args: &Vec<String>) -> (r: Result<usize, IdArgsError>)
    ensures
        args.len() != 2 ==> r == Err::<usize, IdArgsError>(IdArgsError::WrongArgumentCount),
        args.len() == 2 ==> match spec_parse_usize(args@[1]@) {
            Some(n) => r == Ok::<usize, IdArgsError>(n),
            None => r == Err::<usize, IdArgsError>(IdArgsError::InvalidNumber),
        },
{
    if args.len() != 2 {
        return Err(IdArgsError::WrongArgumentCount);
    }
    match parse_usize(args[1].as_str()) {
        Some(n) => Ok(n),
        None => Err(IdArgsError::InvalidNumber),
    }
}

/// Why the orders of a screen could not be read.
#[derive(Debug, Clone, Copy, PartialEq, Eq, Structural)]
pub enum OrderParseError {
    /// "pantallaId" is not a non-negative integer.
    MissingScreenId,
    /// "pedidosTotales" is not an array.
    MissingOrders,
    /// An order's "pedidoId" is not a non-negative integer.
    MissingOrderId,
    /// An order's "tarjetaMonto" is not a non-negative integer.
    MissingCardAmount,
    /// An order's "masaTotal" is not a non-negative integer.
    MissingTotalMass,
    /// The first element of an order's "gustos" is not an object.
    MissingTastes,
}

/// The text of each error.
pub open spec fn parse_error_text(e: OrderParseError) -> Seq<char> {
    match e {
        OrderParseError::MissingScreenId => "Expect pantallaId to be a u64"@,
        OrderParseError::MissingOrders => "Expected pedidosTotales to be an array"@,
        OrderParseError::MissingOrderId => "Expect pedidoId to be a u64"@,
        OrderParseError::MissingCardAmount => "Expect tarjetaMonto to be a u64"@,
        OrderParseError::MissingTotalMass => "Expect masa_total to be a u64"@,
        OrderParseError::MissingTastes => "Expected gustos to be an object"@,
    }
}

impl OrderParseError {
    /// The text of the error.
    pub fn message(&self) -> (text: String)
        ensures
            text@ == parse_error_text(*self),
    {
        match self {
            OrderParseError::MissingScreenId => String::from_str("Expect pantallaId to be a u64"),
            OrderParseError::MissingOrders => String::from_str(
                "Expected pedidosTotales to be an array",
            ),
            OrderParseError::MissingOrderId => String::from_str("Expect pedidoId to be a u64"),
            OrderParseError::MissingCardAmount => String::from_str(
                "Expect tarjetaMonto to be a u64",
            ),
            OrderParseError::MissingTotalMass => String::from_str("Expect masa_total to be a u64"),
            OrderParseError::MissingTastes => String::from_str("Expected gustos to be an object"),
        }
    }
}

/// The grams of each taste of an order: the members of its tastes object
/// whose value is a non-negative integer, a later member replacing an earlier
/// one of the same name.
pub open spec fn tastes_of_members(members: Seq<(String, JsonValue)>) -> Map<Seq<char>, usize>
    decreases members.len(),
{
    if members.len() == 0 {
        Map::empty()
    } else {
        let prev = tastes_of_members(members.drop_last());
        match spec_as_u64(members.last().1) {
            Some(n) => prev.insert(members.last().0@, n as usize),
            None => prev,
        }
    }
}

/// What an order of the orders file holds: its id, card amount, total mass
/// and tastes; or the error that reading it meets first.
pub open spec fn spec_parse_order(item: JsonValue) -> Result<
    (usize, usize, usize, Map<Seq<char>, usize>),
    OrderParseError,
> {
    match spec_as_u64(spec_field(item, "pedidoId"@)) {
        None => Err(OrderParseError::MissingOrderId),
        Some(order_id) => match spec_as_u64(spec_field(item, "tarjetaMonto"@)) {
            None => Err(OrderParseError::MissingCardAmount),
            Some(card_amount) => match spec_as_u64(spec_field(item, "masaTotal"@)) {
                None => Err(OrderParseError::MissingTotalMass),
                Some(total_mass) => match spec_element(spec_field(item, "gustos"@), 0) {
                    JsonValue::Object(members) => Ok(
                        (
                            order_id as usize,
                            card_amount as usize,
                            total_mass as usize,
                            tastes_of_members(members@),
                        ),
                    ),
                    _ => Err(OrderParseError::MissingTastes),
                },
            },
        },
    }
}

/// `o` is the pending order of screen `screen_id` read as `parsed`.
pub open spec fn is_parsed_order(
    o: Order,
    screen_id: usize,
    parsed: (usize, usize, usize, Map<Seq<char>, usize>),
) -> bool {
    &&& o.screen_id == screen_id
    &&& o.order_id == parsed.0
    &&& o.card_amount == parsed.1
    &&& o.total_mass == parsed.2
    &&& o.tastes@ == parsed.3
    &&& o.status == OrderStatus::PendingOrder
    &&& o.message@ == Seq::<char>::empty()
}

/// The number of orders before the first one that cannot be read.
pub open spec fn readable_prefix(items: Seq<JsonValue>, k: int) -> bool {
    &&& 0 <= k <= items.len()
    &&& forall|j: int| 0 <= j < k ==> (#[trigger] spec_parse_order(items[j])).is_ok()
    &&& k < items.len() ==> spec_parse_order(items[k]).is_err()
}

fn parse_tastes(members: &Vec<(String, JsonValue)>) -> (tastes: KeyedTable<usize>)
    ensures
        tastes@ == tastes_of_members(members@),
{
    let mut tastes: KeyedTable<usize> = KeyedTable::new();
    let mut i: usize = 0;
    proof {
        assert(members@.take(0) =~= Seq::<(String, JsonValue)>::empty());
    }
    while i < members.len()
        invariant
            i <= members.len(),
            tastes@ == tastes_of_members(members@.take(i as int)),
        decreases members.len() - i,
    {
        proof {
            assert(members@.take(i + 1).drop_last() =~= members@.take(i as int));
            assert(members@.take(i + 1).last() == members@[i as int]);
        }
        match members[i].1.as_u64() {
            Some(n) => {
                tastes.insert(members[i].0.clone(), n as usize);
            },
            None => {},
        }
        i = i + 1;
    }
    proof {
        assert(members@.take(i as int) =~= members@);
    }
    tastes
}

/// Reads one order of screen `screen_id`.
fn parse_order(item: &JsonValue, screen_id: usize) -> (r: Result<Order, OrderParseError>)
    ensures
        match spec_parse_order(*item) {
            Ok(parsed) => r is Ok && is_parsed_order(r->Ok_0, screen_id, parsed),
            Err(e) => r == Err::<Order, OrderParseError>(e),
        },
{
    let order_id = match item.field("pedidoId").as_u64() {
        Some(n) => n as usize,
        None => return Err(OrderParseError::MissingOrderId),
    };
    let card_amount = match item.field("tarjetaMonto").as_u64() {
        Some(n) => n as usize,
        None => return Err(OrderParseError::MissingCardAmount),
    };
    let total_mass = match item.field("masaTotal").as_u64() {
        Some(n) => n as usize,
        None => return Err(OrderParseError::MissingTotalMass),
    };
    let tastes = match item.field("gustos").element(0) {
        JsonValue::Object(members) => parse_tastes(members),
        _ => return Err(OrderParseError::MissingTastes),
    };
    Ok(
        Order {
            screen_id,
            order_id,
            card_amount,
            total_mass,
            tastes,
            status: OrderStatus::PendingOrder,
            message: String::new(),
        },
    )
}

/// What reading the orders document `data` does: `before` are the orders
/// held before, `after` those held after, `r` the outcome. Without a screen
/// id or an orders array nothing is appended and that error comes back;
/// otherwise the orders are appended in document order up to the first one
/// that cannot be read, whose error comes back.
pub open spec fn parse_orders_outcome(
    data: JsonValue,
    before: Seq<Order>,
    after: Seq<Order>,
    r: Result<(), OrderParseError>,
) -> bool {
    match spec_as_u64(spec_field(data, "pantallaId"@)) {
        None => r == Err::<(), OrderParseError>(OrderParseError::MissingScreenId) && after == before,
        Some(screen_id) => match spec_field(data, "pedidosTotales"@) {
            JsonValue::Array(items) => exists|k: int|
                {
                    &&& readable_prefix(items@, k)
                    &&& after.len() == before.len() + k
                    &&& after.take(before.len() as int) == before
                    &&& forall|j: int|
                        0 <= j < k ==> is_parsed_order(
                            #[trigger] after[before.len() + j],
                            screen_id as usize,
                            spec_parse_order(items@[j])->Ok_0,
                        )
                    &&& if k < items@.len() {
                        r == Err::<(), OrderParseError>(spec_parse_order(items@[k])->Err_0)
                    } else {
                        r == Ok::<(), OrderParseError>(())
                    }
                },
            _ => r == Err::<(), OrderParseError>(OrderParseError::MissingOrders) && after == before,
        },
    }
}

/// Reads the orders of a screen from its orders document, appending them to
/// `orders` in the order of the document. Orders are appended until the first
/// one that cannot be read, whose error is returned.
#[verifier::loop_isolation(false)]
pub fn parse_orders(data: &JsonValue, orders: &mut Vec<Order>) -> (r: Result<(), OrderParseError>)
    ensures
        parse_orders_outcome(*data, old(orders)@, final(orders)@, r),
{
    let screen_id = match data.field("pantallaId").as_u64() {
        Some(n) => n as usize,
        None => return Err(OrderParseError::MissingScreenId),
    };
    let items = match data.field("pedidosTotales") {
        JsonValue::Array(items) => items,
        _ => return Err(OrderParseError::MissingOrders),
    };
    let ghost start = orders@;
    let mut i: usize = 0;
    while i < items.len()
        invariant
            i <= items.len(),
            orders@.len() == start.len() + i,
            orders@.take(start.len() as int) == start,
            forall|j: int| 0 <= j < i ==> (#[trigger] spec_parse_order(items@[j])).is_ok(),
            forall|j: int|
                0 <= j < i ==> is_parsed_order(
                    #[trigger] orders@[start.len() + j],
                    screen_id,
                    spec_parse_order(items@[j])->Ok_0,
                ),
        decreases items.len() - i,
    {
        let ghost prev = orders@;
        match parse_order(&items[i], screen_id) {
            Ok(order) => {
                orders.push(order);
                proof {
                    assert(orders@.take(start.len() as int) =~= prev.take(start.len() as int));
                    assert forall|j: int| 0 <= j < i + 1 implies is_parsed_order(
                        #[trigger] orders@[start.len() + j],
                        screen_id,
                        spec_parse_order(items@[j])->Ok_0,
                    ) by {
                        if j < i {
                            assert(orders@[start.len() + j] == prev[start.len() + j]);
                        }
                    }
                }
            },
            Err(e) => {
                proof {
                    assert(readable_prefix(items@, i as int));
                }
                return Err(e);
            },
        }
        i = i + 1;
    }
    proof {
        assert(readable_prefix(items@, i as int));
    }
    Ok(())
}


/// Why the orders file of a screen could not be read.
#[derive(Debug, Clone, Copy, PartialEq, Eq, Structural)]
pub enum OrdersTextError {
    /// The text is not JSON.
    NotJson,
    /// The document does not hold readable orders.
    Orders(OrderParseError),
}

/// Reads the orders of a screen from the text of its orders file, appending
/// them to `orders` as `parse_orders` does with the document the text holds.
pub fn orders_from_text(text: &str, orders: &mut Vec<Order>) -> (r: Result<(), OrdersTextError>)
    ensures
        spec_json_document(text@) is None ==> r == Err::<(), OrdersTextError>(OrdersTextError::NotJson)
            && final(orders)@ == old(orders)@,
        spec_json_document(text@) matches Some(data) ==> exists|e: Result<(), OrderParseError>|
            {
                &&& parse_orders_outcome(data, old(orders)@, final(orders)@, e)
                &&& r == match e {
                    Ok(()) => Ok::<(), OrdersTextError>(()),
                    Err(pe) => Err::<(), OrdersTextError>(OrdersTextError::Orders(pe)),
                }
            },
{
    match parse_json_document(text) {
        None => Err(OrdersTextError::NotJson),
        Some(data) => match parse_orders(&data, orders) {
            Ok(()) => Ok(()),
            Err(e) => Err(OrdersTextError::Orders(e)),
        },
    }
}

} // verus!
