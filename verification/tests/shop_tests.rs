use std::collections::HashMap;
use tp_concurrentes::constant::{ORDER_STATUS_CAPTURE, ORDER_STATUS_COMMIT};
use tp_concurrentes::gateway::{route_gateway_order, settle_order, GatewayRoute};
use tp_concurrentes::ice_cream_taste_repository::{parse_stock, table_from_pairs, try_to_process_order};
use tp_concurrentes::interface::{commit_order, route_received_order, InterfaceRoute, OrderQueue};
use tp_concurrentes::json::{parse_json_document, JsonValue};
use tp_concurrentes::keyed_table::KeyedTable;
use tp_concurrentes::logic::{
    get_id_args, get_robot_id, id_to_addr_gateway, id_to_addr_interface, id_to_addr_robot,
    orders_from_text, parse_orders, ConnectionRobot, IdArgsError, OrderParseError, OrdersTextError,
    StatusRobot,
};
use tp_concurrentes::order::{Order, OrderStatus};
use tp_concurrentes::order_manager::{
    choose_robot_index, free_robots_with_id, interface_address, on_order_received,
    register_interface, register_robot, robot_at, set_robot_status, ManagerRoute,
    RobotAddressError,
};
use tp_concurrentes::ring_dist_mutex::{
    id_to_addr_ring, next_id, on_ring_message, should_ack, token_step, RingAction, TokenStep,
};
use tp_concurrentes::robot::{route_robot_order, RobotRoute};

fn tastes(pairs: &[(&str, usize)]) -> KeyedTable<usize> {
    let mut t = KeyedTable::new();
    for (k, v) in pairs {
        t.insert(k.to_string(), *v);
    }
    t
}

fn order(pairs: &[(&str, usize)], status: OrderStatus, message: &str) -> Order {
    Order {
        screen_id: 2,
        order_id: 7,
        card_amount: 1000,
        total_mass: 500,
        tastes: tastes(pairs),
        status,
        message: message.to_string(),
    }
}

fn robot(id: usize, status: StatusRobot) -> ConnectionRobot {
    ConnectionRobot { id, address: format!("127.0.0.1:300{}", id), status }
}

#[test]
fn an_order_in_stock_is_served_and_taken_from_the_stock() {
    let mut stock = tastes(&[("chocolate", 1000), ("vainilla", 300), ("frutilla", 50)]);
    let served = try_to_process_order(&mut stock, order(&[("chocolate", 400), ("vainilla", 300)], OrderStatus::InProgress, ""));
    assert_eq!(OrderStatus::OrderReadyToCharge, served.status);
    assert_eq!("Ice cream order successfully shipped", served.message);
    assert_eq!(7, served.order_id);
    assert_eq!(Some(&600), stock.get(&"chocolate".to_string()));
    assert_eq!(Some(&0), stock.get(&"vainilla".to_string()));
    assert_eq!(Some(&50), stock.get(&"frutilla".to_string()));
}

#[test]
fn an_order_short_of_a_taste_fails_and_leaves_the_stock() {
    let mut stock = tastes(&[("chocolate", 1000), ("vainilla", 300)]);
    let failed = try_to_process_order(&mut stock, order(&[("chocolate", 400), ("vainilla", 301)], OrderStatus::InProgress, ""));
    assert_eq!(OrderStatus::Failed, failed.status);
    assert_eq!(
        "✖️ Not enough taste the order need 301 vainilla and the repository has 300 vainilla ",
        failed.message
    );
    assert_eq!(Some(&1000), stock.get(&"chocolate".to_string()));
    assert_eq!(Some(&300), stock.get(&"vainilla".to_string()));
}

#[test]
fn an_order_with_an_unknown_taste_fails() {
    let mut stock = tastes(&[("chocolate", 1000)]);
    let failed = try_to_process_order(&mut stock, order(&[("menta", 1), ("chocolate", 5000)], OrderStatus::InProgress, ""));
    assert_eq!(OrderStatus::Failed, failed.status);
    assert_eq!("Taste does not exist! File error", failed.message);
    assert_eq!(Some(&1000), stock.get(&"chocolate".to_string()));
}

#[test]
fn addresses_end_with_the_id() {
    assert_eq!("127.0.0.1:10003", id_to_addr_interface(3));
    assert_eq!("127.0.0.1:200012", id_to_addr_gateway(12));
    assert_eq!("127.0.0.1:30000", id_to_addr_robot(0));
    assert_eq!("127.0.0.1:13452", id_to_addr_ring(2));
}

#[test]
fn a_robot_id_is_the_last_digit_of_its_address() {
    assert_eq!(Some(2), get_robot_id(&id_to_addr_robot(2)));
    assert_eq!(Some(2), get_robot_id(&id_to_addr_robot(12)));
    assert_eq!(None, get_robot_id(&"127.0.0.1:x".to_string()));
    assert_eq!(None, get_robot_id(&String::new()));
}

#[test]
fn the_id_is_the_only_argument() {
    let args = |v: &[&str]| v.iter().map(|s| s.to_string()).collect::<Vec<String>>();
    assert_eq!(Ok(3), get_id_args(&args(&["robot", "3"])));
    assert_eq!(Err(IdArgsError::WrongArgumentCount), get_id_args(&args(&["robot"])));
    assert_eq!(Err(IdArgsError::WrongArgumentCount), get_id_args(&args(&["robot", "1", "2"])));
    assert_eq!(Err(IdArgsError::InvalidNumber), get_id_args(&args(&["robot", "tres"])));
}

fn num(n: u64) -> JsonValue {
    JsonValue::Number(Some(n))
}

fn obj(members: Vec<(&str, JsonValue)>) -> JsonValue {
    JsonValue::Object(members.into_iter().map(|(k, v)| (k.to_string(), v)).collect())
}

fn json_order(id: u64, tastes: JsonValue) -> JsonValue {
    obj(vec![
        ("pedidoId", num(id)),
        ("tarjetaMonto", num(5000)),
        ("masaTotal", num(750)),
        ("gustos", JsonValue::Array(vec![tastes])),
    ])
}

#[test]
fn orders_are_read_from_their_document() {
    let doc = obj(vec![
        ("pantallaId", num(4)),
        (
            "pedidosTotales",
            JsonValue::Array(vec![
                json_order(1, obj(vec![("chocolate", num(500)), ("nota", JsonValue::Str("x".to_string())), ("limon", num(250))])),
                json_order(2, obj(vec![])),
            ]),
        ),
    ]);
    let mut orders = vec![];
    assert_eq!(Ok(()), parse_orders(&doc, &mut orders));
    assert_eq!(2, orders.len());
    assert_eq!(4, orders[0].screen_id);
    assert_eq!(1, orders[0].order_id);
    assert_eq!(5000, orders[0].card_amount);
    assert_eq!(750, orders[0].total_mass);
    assert_eq!(OrderStatus::PendingOrder, orders[0].status);
    assert_eq!("", orders[0].message);
    assert_eq!(2, orders[0].tastes.len());
    assert_eq!(Some(&250), orders[0].tastes.get(&"limon".to_string()));
    assert_eq!(None, orders[0].tastes.get(&"nota".to_string()));
    assert_eq!(0, orders[1].tastes.len());
}

#[test]
fn each_reading_error_is_reported() {
    let mut orders = vec![];
    assert_eq!(Err(OrderParseError::MissingScreenId), parse_orders(&obj(vec![]), &mut orders));
    assert_eq!(
        Err(OrderParseError::MissingOrders),
        parse_orders(&obj(vec![("pantallaId", num(1)), ("pedidosTotales", num(3))]), &mut orders)
    );
    let bad = |o: JsonValue| obj(vec![("pantallaId", num(1)), ("pedidosTotales", JsonValue::Array(vec![json_order(9, obj(vec![])), o]))]);
    let no_id = obj(vec![("tarjetaMonto", num(1)), ("masaTotal", num(1)), ("gustos", JsonValue::Array(vec![obj(vec![])]))]);
    let no_card = obj(vec![("pedidoId", num(1)), ("masaTotal", num(1)), ("gustos", JsonValue::Array(vec![obj(vec![])]))]);
    let no_mass = obj(vec![("pedidoId", num(1)), ("tarjetaMonto", num(1)), ("gustos", JsonValue::Array(vec![obj(vec![])]))]);
    let no_tastes = obj(vec![("pedidoId", num(1)), ("tarjetaMonto", num(1)), ("masaTotal", num(1)), ("gustos", obj(vec![]))]);
    let negative = obj(vec![("pedidoId", JsonValue::Number(None)), ("tarjetaMonto", num(1)), ("masaTotal", num(1)), ("gustos", JsonValue::Array(vec![obj(vec![])]))]);
    assert_eq!(Err(OrderParseError::MissingOrderId), parse_orders(&bad(no_id), &mut orders));
    assert_eq!(Err(OrderParseError::MissingCardAmount), parse_orders(&bad(no_card), &mut orders));
    assert_eq!(Err(OrderParseError::MissingTotalMass), parse_orders(&bad(no_mass), &mut orders));
    assert_eq!(Err(OrderParseError::MissingTastes), parse_orders(&bad(no_tastes), &mut orders));
    assert_eq!(Err(OrderParseError::MissingOrderId), parse_orders(&bad(negative), &mut orders));
    // each failing document appended the order that came before the bad one
    assert_eq!(5, orders.len());
    assert_eq!("Expected gustos to be an object", OrderParseError::MissingTastes.message());
}

#[test]
fn the_queue_sends_each_order_once_in_order_then_completes() {
    let mut queue = OrderQueue::new(vec![
        order(&[("a", 1)], OrderStatus::PendingOrder, ""),
        order(&[("b", 2)], OrderStatus::PendingOrder, ""),
    ]);
    let first = queue.send_next_order().unwrap();
    assert_eq!(OrderStatus::InProgress, first.status);
    assert_eq!(ORDER_STATUS_CAPTURE, first.message);
    assert_eq!(Some(&1), first.tastes.get(&"a".to_string()));
    let second = queue.send_next_order().unwrap();
    assert_eq!(Some(&2), second.tastes.get(&"b".to_string()));
    assert!(!queue.all_orders_completed());
    assert!(queue.send_next_order().is_none());
    assert!(queue.all_orders_completed());
    assert_eq!(2, queue.index_current_order());
}

#[test]
fn each_actor_routes_orders_by_status() {
    assert_eq!(InterfaceRoute::ToManager, route_received_order(OrderStatus::InProgress));
    assert_eq!(InterfaceRoute::Failed, route_received_order(OrderStatus::Failed));
    assert_eq!(InterfaceRoute::Commit, route_received_order(OrderStatus::OrderReadyToCharge));
    assert_eq!(InterfaceRoute::Commit, route_received_order(OrderStatus::Done));
    assert_eq!(GatewayRoute::CapturePayment, route_gateway_order(OrderStatus::InProgress));
    assert_eq!(GatewayRoute::Settle, route_gateway_order(OrderStatus::OrderReadyToCharge));
    assert_eq!(GatewayRoute::Ignore, route_gateway_order(OrderStatus::Failed));
    assert_eq!(RobotRoute::ToRepository, route_robot_order(OrderStatus::InProgress));
    assert_eq!(RobotRoute::ToManager, route_robot_order(OrderStatus::Failed));
    assert_eq!(RobotRoute::CoolThenToManager, route_robot_order(OrderStatus::OrderReadyToCharge));
    assert_eq!(RobotRoute::Ignore, route_robot_order(OrderStatus::Done));
}

#[test]
fn a_committed_order_is_done_and_any_other_fails() {
    let committed = commit_order(order(&[], OrderStatus::OrderReadyToCharge, "PREPARE"));
    assert_eq!(ORDER_STATUS_COMMIT, committed.message);
    assert_eq!(OrderStatus::Done, settle_order(committed).status);
    let aborted = settle_order(order(&[], OrderStatus::OrderReadyToCharge, "ABORT"));
    assert_eq!(OrderStatus::Failed, aborted.status);
    assert_eq!("ABORT", aborted.message);
}

#[test]
fn the_first_free_robot_gets_the_order() {
    let robots = vec![robot(0, StatusRobot::Busy), robot(1, StatusRobot::Free), robot(2, StatusRobot::Free)];
    assert_eq!(1, choose_robot_index(&robots));
    let busy = vec![robot(0, StatusRobot::Busy), robot(1, StatusRobot::Busy)];
    for _ in 0..20 {
        assert!(choose_robot_index(&busy) < 2);
    }
}

#[test]
fn robots_are_registered_marked_and_freed() {
    let mut robots = vec![];
    assert_eq!(Ok(false), register_robot(&mut robots, &"hola".to_string(), &"127.0.0.1:30001".to_string()));
    assert_eq!(Ok(true), register_robot(&mut robots, &"Hello Robot".to_string(), &"127.0.0.1:30001".to_string()));
    assert_eq!(Err(RobotAddressError::NoRobotId), register_robot(&mut robots, &"Hello Robot".to_string(), &"host:x".to_string()));
    assert_eq!(1, robots.len());
    assert_eq!(1, robots[0].id);
    set_robot_status(&mut robots, 0, StatusRobot::Busy);
    assert_eq!(StatusRobot::Busy, robots[0].status);
    assert_eq!((1, "127.0.0.1:30001".to_string()), robot_at(&robots, 0));
    free_robots_with_id(&mut robots, 1);
    assert_eq!(StatusRobot::Free, robots[0].status);
}

#[test]
fn the_manager_records_interfaces_and_frees_robots() {
    let mut interfaces: HashMap<usize, String> = HashMap::new();
    let mut robots = vec![robot(1, StatusRobot::Busy), robot(2, StatusRobot::Busy)];
    let new_order = order(&[], OrderStatus::InProgress, "PREPARE");
    assert_eq!(Ok(ManagerRoute::ToRobots), on_order_received(&mut interfaces, &mut robots, &new_order, &"127.0.0.1:10002".to_string()));
    assert_eq!(Ok(ManagerRoute::ToRobots), on_order_received(&mut interfaces, &mut robots, &new_order, &"elsewhere".to_string()));
    assert_eq!(Some("127.0.0.1:10002".to_string()), interface_address(&interfaces, 2));
    assert_eq!(None, interface_address(&interfaces, 3));
    let done = order(&[], OrderStatus::OrderReadyToCharge, "");
    assert_eq!(Ok(ManagerRoute::ToInterfaces), on_order_received(&mut interfaces, &mut robots, &done, &"127.0.0.1:30002".to_string()));
    assert_eq!(StatusRobot::Busy, robots[0].status);
    assert_eq!(StatusRobot::Free, robots[1].status);
    assert_eq!(Err(RobotAddressError::NoRobotId), on_order_received(&mut interfaces, &mut robots, &done, &"nowhere".to_string()));
    let pending = order(&[], OrderStatus::PendingOrder, "");
    assert_eq!(Ok(ManagerRoute::Ignore), on_order_received(&mut interfaces, &mut robots, &pending, &"x".to_string()));
    register_interface(&mut interfaces, 9, "a".to_string());
    register_interface(&mut interfaces, 9, "b".to_string());
    assert_eq!(Some("a".to_string()), interface_address(&interfaces, 9));
}

#[test]
fn the_token_goes_round_the_ring() {
    assert_eq!(1, next_id(0, 3));
    assert_eq!(0, next_id(2, 3));
    assert_eq!(TokenStep::SendTo(2), token_step(1, 1, 3));
    assert_eq!(TokenStep::SendTo(0), token_step(1, 2, 3));
    assert_eq!(TokenStep::Alone, token_step(1, 0, 3));
    assert_eq!(TokenStep::Alone, token_step(0, 0, 1));
}

#[test]
fn a_token_is_acknowledged_unless_it_comes_from_oneself() {
    assert!(should_ack(&"127.0.0.1:13452".to_string(), 1));
    assert!(!should_ack(&"127.0.0.1:13451".to_string(), 1));
    assert!(should_ack(&"no-digit".to_string(), 1));
    assert!(!should_ack(&"no-digit".to_string(), 10));
    assert!(!should_ack(&"".to_string(), 1));
}

#[test]
fn ring_messages_are_told_apart() {
    let from = "127.0.0.1:13450".to_string();
    assert_eq!(RingAction::TakeToken { ack: true }, on_ring_message("TOKEN", &from, 2));
    assert_eq!(RingAction::TakeToken { ack: false }, on_ring_message("TOKEN", &from, 0));
    assert_eq!(RingAction::AckReceived, on_ring_message("ACK", &from, 2));
    assert_eq!(RingAction::Ignore, on_ring_message("TOKENS", &from, 2));
    assert_eq!(RingAction::Ignore, on_ring_message("", &from, 2));
}

#[test]
fn orders_are_read_from_the_text_of_their_file() {
    let text = r#"{"pantallaId": 3, "pedidosTotales": [
        {"pedidoId": 1, "tarjetaMonto": 500, "masaTotal": 250, "gustos": [{"menta": 100, "chocolate": 150}]},
        {"pedidoId": 2, "tarjetaMonto": 90, "masaTotal": 80, "gustos": [{"vainilla": 80, "raro": "x"}]}
    ]}"#;
    let mut orders = Vec::new();
    assert_eq!(Ok(()), orders_from_text(text, &mut orders));
    assert_eq!(2, orders.len());
    assert_eq!(3, orders[0].screen_id);
    assert_eq!(1, orders[0].order_id);
    assert_eq!(500, orders[0].card_amount);
    assert_eq!(250, orders[0].total_mass);
    assert_eq!(Some(&150), orders[0].tastes.get(&"chocolate".to_string()));
    assert_eq!(Some(&100), orders[0].tastes.get(&"menta".to_string()));
    assert_eq!(1, orders[1].tastes.len());
    assert_eq!(OrderStatus::PendingOrder, orders[1].status);
}

#[test]
fn a_text_that_is_not_json_or_holds_no_orders_is_refused() {
    let mut orders = Vec::new();
    assert_eq!(Err(OrdersTextError::NotJson), orders_from_text("{pantallaId: 3", &mut orders));
    assert_eq!(
        Err(OrdersTextError::Orders(OrderParseError::MissingScreenId)),
        orders_from_text(r#"{"pantallaId": -3, "pedidosTotales": []}"#, &mut orders)
    );
    assert_eq!(
        Err(OrdersTextError::Orders(OrderParseError::MissingOrders)),
        orders_from_text(r#"{"pantallaId": 3}"#, &mut orders)
    );
    assert!(orders.is_empty());
    assert!(parse_json_document("[1, 2.5, null, true, \"s\"]").is_some());
    assert!(parse_json_document("").is_none());
}

#[test]
fn the_stock_is_read_from_the_text_of_its_file() {
    let stock = parse_stock(r#"{"menta": 1000, "chocolate": 250}"#).expect("a stock");
    assert_eq!(2, stock.len());
    assert_eq!(Some(&1000), stock.get(&"menta".to_string()));
    assert_eq!(Some(&250), stock.get(&"chocolate".to_string()));
    assert!(parse_stock(r#"{"menta": -1}"#).is_err());
    assert!(parse_stock("not json").is_err());
    assert!(parse_stock(r#"["menta"]"#).is_err());
}

#[test]
fn a_later_pair_of_a_taste_replaces_an_earlier_one() {
    let t = table_from_pairs(vec![("a".to_string(), 1), ("b".to_string(), 2), ("a".to_string(), 3)]);
    assert_eq!(2, t.len());
    assert_eq!(Some(&3), t.get(&"a".to_string()));
    assert_eq!(Some(&2), t.get(&"b".to_string()));
}
