use tcp_registry::errors::TcpError;
use tcp_registry::event::Event;
use tcp_registry::registry::Registry;

#[test]
fn send_to_client_ignores_peer_addr() {
    let mut reg = Registry::new();
    let id = String::from("cli");
    let start = reg.register_client(&id, &String::from("127.0.0.1:9000"));
    let without = reg.send_route(&id, &None);
    let with = reg.send_route(&id, &Some(String::from("10.9.8.7:6543")));
    assert_eq!(without, Ok(start.writer));
    assert_eq!(with, Ok(start.writer));
}

#[test]
fn send_to_unknown_id_is_not_found() {
    let reg = Registry::new();
    assert_eq!(
        reg.send_route(&String::from("nobody"), &None),
        Err(TcpError::NotFound)
    );
}

#[test]
fn send_to_server_without_addr_is_invalid_input() {
    let mut reg = Registry::new();
    let id = String::from("srv");
    reg.register_server(&id, &String::from("0.0.0.0:7000"));
    assert_eq!(reg.send_route(&id, &None), Err(TcpError::InvalidInput));
}

#[test]
fn send_to_server_with_unknown_peer_is_not_found() {
    let mut reg = Registry::new();
    let id = String::from("srv");
    reg.register_server(&id, &String::from("0.0.0.0:7000"));
    assert_eq!(
        reg.send_route(&id, &Some(String::from("10.0.0.1:1111"))),
        Err(TcpError::NotFound)
    );
}

#[test]
fn two_peers_get_distinct_events_and_writers() {
    let mut reg = Registry::new();
    let id = String::from("srv");
    reg.register_server(&id, &String::from("0.0.0.0:7000"));
    let addr_a = String::from("10.0.0.1:1111");
    let addr_b = String::from("10.0.0.2:2222");
    let a = reg.accept_peer(&id, &addr_a).expect("server is live");
    let b = reg.accept_peer(&id, &addr_b).expect("server is live");
    assert_eq!(a.event, Event::Connect(addr_a.clone()));
    assert_eq!(b.event, Event::Connect(addr_b.clone()));
    assert_ne!(a.event, b.event);
    let route_a = reg.send_route(&id, &Some(addr_a));
    let route_b = reg.send_route(&id, &Some(addr_b));
    assert_eq!(route_a, Ok(a.writer));
    assert_eq!(route_b, Ok(b.writer));
    assert_ne!(a.writer, b.writer);
    assert_ne!(a.writer, b.read_task);
}

#[test]
fn accept_on_client_id_is_discarded() {
    let mut reg = Registry::new();
    let id = String::from("cli");
    reg.register_client(&id, &String::from("127.0.0.1:9000"));
    assert!(reg.accept_peer(&id, &String::from("10.0.0.1:1111")).is_none());
}

#[test]
fn accept_on_unknown_id_is_discarded() {
    let mut reg = Registry::new();
    assert!(reg
        .accept_peer(&String::from("nobody"), &String::from("10.0.0.1:1111"))
        .is_none());
}

#[test]
fn accept_at_occupied_addr_replaces_session() {
    let mut reg = Registry::new();
    let id = String::from("srv");
    reg.register_server(&id, &String::from("0.0.0.0:7000"));
    let addr = String::from("10.0.0.1:1111");
    let first = reg.accept_peer(&id, &addr).expect("server is live");
    assert!(first.replaced.is_none());
    let second = reg.accept_peer(&id, &addr).expect("server is live");
    let old = second.replaced.expect("the address was occupied");
    assert_eq!(old.writer, first.writer);
    assert_eq!(old.read_task, first.read_task);
    assert_eq!(reg.send_route(&id, &Some(addr)), Ok(second.writer));
}
