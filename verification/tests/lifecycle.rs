use tcp_registry::errors::TcpError;
use tcp_registry::event::Event;
use tcp_registry::registry::{ConnKind, Registry, REPLACE_GRACE_MS, READ_BUFFER_LEN};

#[test]
fn register_client_then_lookup_succeeds() {
    let mut reg = Registry::new();
    let id = String::from("cli");
    let ep = String::from("127.0.0.1:9000");
    let start = reg.register_client(&id, &ep);
    assert_eq!(start.event, Event::Connect(String::from("127.0.0.1:9000")));
    assert!(reg.contains(&id));
    assert_eq!(reg.lookup(&id), Ok(ConnKind::Client));
}

#[test]
fn disconnect_removes_entry() {
    let mut reg = Registry::new();
    let id = String::from("cli");
    let ep = String::from("127.0.0.1:9000");
    reg.register_client(&id, &ep);
    let retired = reg.disconnect(&id).expect("client was registered");
    assert_eq!(retired.tasks.len(), 1);
    assert_eq!(retired.writers.len(), 1);
    assert_eq!(reg.lookup(&id), Err(TcpError::NotFound));
    assert_eq!(reg.disconnect(&id), Err(TcpError::NotFound));
}

#[test]
fn register_server_then_lookup_succeeds() {
    let mut reg = Registry::new();
    let id = String::from("srv");
    let ep = String::from("0.0.0.0:7000");
    let start = reg.register_server(&id, &ep);
    assert_eq!(start.event, Event::Bind(String::from("0.0.0.0:7000")));
    assert_eq!(reg.lookup(&id), Ok(ConnKind::Server));
    let done = reg.unbind(&id).expect("server was registered");
    let done = done.expect("a server teardown returns its handles");
    assert_eq!(done.event, Event::Unbind);
    assert_eq!(reg.lookup(&id), Err(TcpError::NotFound));
}

#[test]
fn unbind_unknown_id_is_not_found() {
    let mut reg = Registry::new();
    assert_eq!(
        reg.unbind(&String::from("nobody")).err(),
        Some(TcpError::NotFound)
    );
}

#[test]
fn unbind_on_client_succeeds_without_touching_it() {
    let mut reg = Registry::new();
    let id = String::from("cli");
    reg.register_client(&id, &String::from("127.0.0.1:9000"));
    let done = reg.unbind(&id).expect("id is present");
    assert!(done.is_none());
    assert_eq!(reg.lookup(&id), Ok(ConnKind::Client));
}

#[test]
fn second_connect_retires_first_with_distinct_handles() {
    let mut reg = Registry::new();
    let id = String::from("cli");
    let ep = String::from("127.0.0.1:9000");
    let first = reg.register_client(&id, &ep);
    let retired = reg.retire(&id).expect("first connection is present");
    assert_eq!(retired.tasks, vec![first.read_task]);
    assert_eq!(retired.writers, vec![first.writer]);
    assert!(!reg.contains(&id));
    let second = reg.register_client(&id, &ep);
    assert!(second.writer != first.writer && second.writer != first.read_task);
    assert!(second.read_task != first.writer && second.read_task != first.read_task);
    assert!(!retired.tasks.contains(&second.read_task));
    assert!(!retired.writers.contains(&second.writer));
    assert_eq!(reg.lookup(&id), Ok(ConnKind::Client));
}

#[test]
fn retire_names_every_server_handle() {
    let mut reg = Registry::new();
    let id = String::from("srv");
    let srv = reg.register_server(&id, &String::from("0.0.0.0:7000"));
    let a = reg
        .accept_peer(&id, &String::from("10.0.0.1:1111"))
        .expect("server is live");
    let b = reg
        .accept_peer(&id, &String::from("10.0.0.2:2222"))
        .expect("server is live");
    let retired = reg.retire(&id).expect("server is present");
    assert_eq!(retired.tasks.len(), 3);
    assert!(retired.tasks.contains(&srv.accept_task));
    assert!(retired.tasks.contains(&a.read_task));
    assert!(retired.tasks.contains(&b.read_task));
    assert_eq!(retired.writers.len(), 2);
    assert!(retired.writers.contains(&a.writer));
    assert!(retired.writers.contains(&b.writer));
}

#[test]
fn connect_can_replace_a_server_id() {
    let mut reg = Registry::new();
    let id = String::from("x");
    let srv = reg.register_server(&id, &String::from("0.0.0.0:7000"));
    let peer = reg
        .accept_peer(&id, &String::from("10.0.0.1:1111"))
        .expect("server is live");
    let retired = reg.retire(&id).expect("server is present");
    assert!(retired.tasks.contains(&srv.accept_task));
    assert!(retired.tasks.contains(&peer.read_task));
    let cli = reg.register_client(&id, &String::from("127.0.0.1:9000"));
    assert!(!retired.tasks.contains(&cli.read_task));
    assert!(!retired.writers.contains(&cli.writer));
    assert_eq!(reg.lookup(&id), Ok(ConnKind::Client));
}

#[test]
fn tunables_are_as_documented() {
    assert_eq!(REPLACE_GRACE_MS, 100);
    assert_eq!(READ_BUFFER_LEN, 65536);
}
