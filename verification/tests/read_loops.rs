use tcp_registry::errors::TcpError;
use tcp_registry::event::Event;
use tcp_registry::registry::{ConnKind, ReadOutcome, Registry};

#[test]
fn client_bytes_become_a_message_event() {
    let mut reg = Registry::new();
    let id = String::from("cli");
    let ep = String::from("127.0.0.1:9000");
    reg.register_client(&id, &ep);
    let step = reg.client_read_step(&id, &ep, ReadOutcome::Data(b"ping".to_vec()));
    assert_eq!(
        step.event,
        Event::Message { addr: ep.clone(), data: b"ping".to_vec() }
    );
    assert!(!step.stop);
    assert!(step.retired.is_none());
    assert_eq!(reg.lookup(&id), Ok(ConnKind::Client));
}

#[test]
fn client_end_of_stream_disconnects_and_cleans_up() {
    let mut reg = Registry::new();
    let id = String::from("cli");
    let ep = String::from("127.0.0.1:9000");
    reg.register_client(&id, &ep);
    let step = reg.client_read_step(&id, &ep, ReadOutcome::Closed);
    assert_eq!(step.event, Event::Disconnect(ep.clone()));
    assert!(step.stop);
    assert!(step.retired.is_some());
    assert_eq!(reg.lookup(&id), Err(TcpError::NotFound));
}

#[test]
fn client_read_error_is_treated_as_end_of_stream() {
    let mut reg = Registry::new();
    let id = String::from("cli");
    let ep = String::from("127.0.0.1:9000");
    reg.register_client(&id, &ep);
    let step = reg.client_read_step(&id, &ep, ReadOutcome::Failed);
    assert_eq!(step.event, Event::Disconnect(ep));
    assert!(step.stop);
    assert_eq!(reg.lookup(&id), Err(TcpError::NotFound));
}

#[test]
fn peer_bytes_become_a_message_event() {
    let mut reg = Registry::new();
    let id = String::from("srv");
    reg.register_server(&id, &String::from("0.0.0.0:7000"));
    let addr = String::from("10.0.0.1:1111");
    reg.accept_peer(&id, &addr).expect("server is live");
    let step = reg.peer_read_step(&id, &addr, ReadOutcome::Data(b"hello".to_vec()));
    assert_eq!(
        step.event,
        Event::Message { addr: addr.clone(), data: b"hello".to_vec() }
    );
    assert!(!step.stop);
    assert_eq!(reg.send_route(&id, &Some(addr)), Ok(1));
}

#[test]
fn peer_close_removes_only_that_session() {
    let mut reg = Registry::new();
    let id = String::from("srv");
    reg.register_server(&id, &String::from("0.0.0.0:7000"));
    let addr_a = String::from("10.0.0.1:1111");
    let addr_b = String::from("10.0.0.2:2222");
    let a = reg.accept_peer(&id, &addr_a).expect("server is live");
    let b = reg.accept_peer(&id, &addr_b).expect("server is live");
    let step = reg.peer_read_step(&id, &addr_a, ReadOutcome::Closed);
    assert_eq!(step.event, Event::Disconnect(addr_a.clone()));
    assert!(step.stop);
    let retired = step.retired.expect("the session was present");
    assert_eq!(retired.tasks, vec![a.read_task]);
    assert_eq!(retired.writers, vec![a.writer]);
    assert_eq!(reg.send_route(&id, &Some(addr_a)), Err(TcpError::NotFound));
    assert_eq!(reg.send_route(&id, &Some(addr_b)), Ok(b.writer));
}

#[test]
fn peer_close_after_unbind_changes_nothing() {
    let mut reg = Registry::new();
    let id = String::from("srv");
    reg.register_server(&id, &String::from("0.0.0.0:7000"));
    let addr = String::from("10.0.0.1:1111");
    reg.accept_peer(&id, &addr).expect("server is live");
    reg.unbind(&id).expect("server is present");
    let step = reg.peer_read_step(&id, &addr, ReadOutcome::Closed);
    assert_eq!(step.event, Event::Disconnect(addr));
    assert!(step.stop);
    assert!(step.retired.is_none());
}

#[test]
fn unbind_cancels_accept_loop_and_every_peer() {
    let mut reg = Registry::new();
    let id = String::from("srv");
    let srv = reg.register_server(&id, &String::from("0.0.0.0:7000"));
    let addr_a = String::from("10.0.0.1:1111");
    let addr_b = String::from("10.0.0.2:2222");
    let a = reg.accept_peer(&id, &addr_a).expect("server is live");
    let b = reg.accept_peer(&id, &addr_b).expect("server is live");
    let done = reg
        .unbind(&id)
        .expect("server is present")
        .expect("a server teardown returns its handles");
    assert_eq!(done.event, Event::Unbind);
    assert_eq!(done.retired.tasks.len(), 3);
    assert!(done.retired.tasks.contains(&srv.accept_task));
    assert!(done.retired.tasks.contains(&a.read_task));
    assert!(done.retired.tasks.contains(&b.read_task));
    assert_eq!(reg.lookup(&id), Err(TcpError::NotFound));
    assert_eq!(reg.send_route(&id, &Some(addr_a)), Err(TcpError::NotFound));
    assert_eq!(reg.send_route(&id, &Some(addr_b)), Err(TcpError::NotFound));
}

#[test]
fn bind_connect_ping_pong_close() {
    let mut reg = Registry::new();
    let srv = String::from("srv");
    let cli = String::from("cli");
    let listen_ep = String::from("127.0.0.1:34567");
    let cli_addr = String::from("127.0.0.1:51515");

    let bound = reg.register_server(&srv, &listen_ep);
    assert_eq!(bound.event, Event::Bind(listen_ep.clone()));

    let connected = reg.register_client(&cli, &listen_ep);
    assert_eq!(connected.event, Event::Connect(listen_ep.clone()));

    let peer = reg.accept_peer(&srv, &cli_addr).expect("server is live");
    assert_eq!(peer.event, Event::Connect(cli_addr.clone()));

    let route = reg.send_route(&cli, &None);
    assert_eq!(route, Ok(connected.writer));
    let step = reg.peer_read_step(&srv, &cli_addr, ReadOutcome::Data(b"ping".to_vec()));
    assert_eq!(
        step.event,
        Event::Message { addr: cli_addr.clone(), data: b"ping".to_vec() }
    );

    let route = reg.send_route(&srv, &Some(cli_addr.clone()));
    assert_eq!(route, Ok(peer.writer));
    let step = reg.client_read_step(&cli, &listen_ep, ReadOutcome::Data(b"pong".to_vec()));
    assert_eq!(
        step.event,
        Event::Message { addr: listen_ep.clone(), data: b"pong".to_vec() }
    );

    let step = reg.client_read_step(&cli, &listen_ep, ReadOutcome::Closed);
    assert_eq!(step.event, Event::Disconnect(listen_ep.clone()));
    assert!(step.stop);
    assert_eq!(reg.lookup(&cli), Err(TcpError::NotFound));

    let step = reg.peer_read_step(&srv, &cli_addr, ReadOutcome::Closed);
    assert_eq!(step.event, Event::Disconnect(cli_addr.clone()));
    assert!(step.stop);
    assert_eq!(reg.send_route(&srv, &Some(cli_addr)), Err(TcpError::NotFound));
    assert_eq!(reg.lookup(&srv), Ok(ConnKind::Server));
}
