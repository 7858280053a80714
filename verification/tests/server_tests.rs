use std::collections::HashMap;

use chatproto::checker::{spam_decision, CheckerMode, IpAddress, TestChecker};
use chatproto::client::Client;
use chatproto::messages::{
    ClientError, ClientId, ClientMessage, ClientPollReply, ClientReply, FullyQualifiedMessage,
    Outgoing, ServerId, ServerMessage, ServerReply,
};
use chatproto::server::Server;
use chatproto::MAILBOX_SIZE;

fn localhost() -> IpAddress {
    IpAddress::new(0x7f00_0001)
}

fn try_register(server: &mut Server, checker: &TestChecker, name: &str) -> Option<ClientId> {
    let ip = checker.is_ip_spammer(&localhost());
    let user = checker.is_user_spammer(name);
    server.register_local_client(ip, user, name.to_string())
}

fn spammer_both_check() {
    let sid = ServerId::default();
    let checker = TestChecker::new(CheckerMode::Fixed { ip: true, user: true });
    let mut server = Server::new(sid);
    assert!(try_register(&mut server, &checker, "user1").is_none());
}

fn spammer_ip_check() {
    let sid = ServerId::default();
    let checker = TestChecker::new(CheckerMode::Fixed { ip: true, user: false });
    let mut server = Server::new(sid);
    assert!(try_register(&mut server, &checker, "user1").is_none());
}

fn spammer_user_check() {
    let sid = ServerId::default();
    let checker = TestChecker::new(CheckerMode::Fixed { ip: false, user: true });
    let mut server = Server::new(sid);
    assert!(try_register(&mut server, &checker, "user1").is_none());
}

fn spammer_delay_ip_check() {
    // The IP predicate stalls; the user predicate answers true at once, so
    // the decision falls without waiting for the stalled side.
    let sid = ServerId::default();
    let checker = TestChecker::new(CheckerMode::DelayIp);
    assert_eq!(checker.is_ip_spammer(&localhost()), None);
    assert_eq!(checker.is_user_spammer("user1"), Some(true));
    let mut server = Server::new(sid);
    assert!(try_register(&mut server, &checker, "user1").is_none());
}

fn spammer_delay_user_check() {
    let sid = ServerId::default();
    let checker = TestChecker::new(CheckerMode::DelayUser);
    assert_eq!(checker.is_user_spammer("user1"), None);
    assert_eq!(checker.is_ip_spammer(&localhost()), Some(true));
    let mut server = Server::new(sid);
    assert!(try_register(&mut server, &checker, "user1").is_none());
}

fn sequence_correct_check() {
    let sid = ServerId::default();
    let checker = TestChecker::default();
    let mut server = Server::new(sid);
    let c1 = try_register(&mut server, &checker, "user1").unwrap();
    let c2 = try_register(&mut server, &checker, "user2").unwrap();
    let mut client1 = Client::new(c1);
    let mut client2 = Client::new(c2);
    for i in 0..100 {
        let message = if i & 1 == 0 { client1.sequence(()) } else { client2.sequence(()) };
        assert_eq!(server.handle_sequenced_message(message), Ok(()));
    }
}

fn sequence_unknown_user_check() {
    let sid = ServerId::default();
    let mut server = Server::new(sid);
    let c1 = ClientId::default();
    let mut client1 = Client::new(c1);
    let message = client1.sequence(());
    assert_eq!(server.handle_sequenced_message(message), Err(ClientError::UnknownClient));
}

fn sequence_replay_check() {
    let sid = ServerId::default();
    let checker = TestChecker::default();
    let mut server = Server::new(sid);
    let c1 = try_register(&mut server, &checker, "user1").unwrap();
    let mut client1 = Client::new(c1);
    let message = client1.sequence(());
    assert_eq!(server.handle_sequenced_message(message), Ok(()));
    // A non-increasing sequence number is a replay.
    let replay = chatproto::messages::Sequence { seqid: 1, src: c1, content: () };
    assert_eq!(server.handle_sequenced_message(replay), Err(ClientError::SequenceError));
    // Gaps are allowed.
    let gap = chatproto::messages::Sequence { seqid: 100, src: c1, content: () };
    assert_eq!(server.handle_sequenced_message(gap), Ok(()));
}

fn simple_client_check() {
    let sid = ServerId::default();
    let checker = TestChecker::default();
    let mut server = Server::new(sid);
    let c1 = try_register(&mut server, &checker, "user 1").unwrap();
    let c2 = try_register(&mut server, &checker, "user 2").unwrap();
    let r = server.handle_client_message(
        c1,
        ClientMessage::Text { dest: c2, content: "hello".into() },
    );
    assert_eq!(r, vec![ClientReply::Delivered]);
    let reply = server.client_poll(c2);
    let expected = ClientPollReply::Message { src: c1, content: "hello".into() };
    assert_eq!(reply, expected);
}

fn list_users_check() {
    let sid = ServerId::default();
    let checker = TestChecker::default();
    let mut server = Server::new(sid);
    let mut usermap = HashMap::new();
    for n in 0..100_u32 {
        let username = format!("user {n}");
        let id = try_register(&mut server, &checker, &username).unwrap();
        usermap.insert(id, username);
    }
    let actual: HashMap<ClientId, String> = server.list_users().into_iter().collect();
    assert_eq!(actual, usermap);
}

fn multiple_client_messages_check() {
    let sid = ServerId::default();
    let checker = TestChecker::default();
    let mut server = Server::new(sid);
    let c1 = try_register(&mut server, &checker, "user 1").unwrap();
    let c2 = try_register(&mut server, &checker, "user 2").unwrap();
    let c3 = try_register(&mut server, &checker, "user 3").unwrap();
    for i in 0..100 {
        let r = server.handle_client_message(
            c1,
            ClientMessage::Text { dest: c2, content: i.to_string() },
        );
        assert_eq!(r, vec![ClientReply::Delivered], "single message {i}");
    }
    for i in 0..100 {
        let r = server.handle_client_message(
            c1,
            ClientMessage::MText { dest: vec![c2, c3], content: (i + 100).to_string() },
        );
        assert_eq!(r, vec![ClientReply::Delivered, ClientReply::Delivered], "multi message {i}");
    }
    for i in 0..200 {
        let reply = server.client_poll(c2);
        let expected = ClientPollReply::Message { src: c1, content: i.to_string() };
        assert_eq!(reply, expected, "poll c2 {i}");
    }
    for i in 100..200 {
        let reply = server.client_poll(c3);
        let expected = ClientPollReply::Message { src: c1, content: i.to_string() };
        assert_eq!(reply, expected, "poll c3 {i}");
    }
    assert_eq!(server.client_poll(c2), ClientPollReply::Nothing);
    assert_eq!(server.client_poll(c3), ClientPollReply::Nothing);
}

fn mixed_results_check() {
    let sid = ServerId::default();
    let checker = TestChecker::default();
    let mut server = Server::new(sid);
    let c1 = try_register(&mut server, &checker, "user 1").unwrap();
    let c2 = try_register(&mut server, &checker, "user 2").unwrap();
    let c3 = ClientId::default();
    let m = server.handle_client_message(
        c1,
        ClientMessage::MText { dest: vec![c2, c3], content: "Hello".to_string() },
    );
    assert_eq!(m, vec![ClientReply::Delivered, ClientReply::Delayed]);
}

fn mailbox_full_check() {
    let sid = ServerId::default();
    let checker = TestChecker::default();
    let mut server = Server::new(sid);
    let c1 = try_register(&mut server, &checker, "user 1").unwrap();
    let c2 = try_register(&mut server, &checker, "user 2").unwrap();
    for n in 0..MAILBOX_SIZE {
        let m = server.handle_client_message(
            c1,
            ClientMessage::Text { dest: c2, content: format!("{n}") },
        );
        assert_eq!(m, vec![ClientReply::Delivered], "message {n}");
    }
    let m = server.handle_client_message(
        c1,
        ClientMessage::Text { dest: c2, content: "FULL".into() },
    );
    assert_eq!(m, vec![ClientReply::Error(ClientError::BoxFull(c2))]);
}

fn message_to_outer_user_check() {
    let sid = ServerId::default();
    let checker = TestChecker::default();
    let mut server = Server::new(sid);
    let c1 = try_register(&mut server, &checker, "user 1").unwrap();
    let s1 = ServerId::default();
    let s2 = ServerId::default();
    let s3 = ServerId::default();
    let euuid = ClientId::default();
    let r = server.handle_server_message(ServerMessage::Announce {
        route: vec![s1, s2, s3],
        clients: vec![(euuid, "external user".into())],
    });
    assert_eq!(r, ServerReply::Outgoing(Vec::new()));
    let r = server.handle_client_message(
        c1,
        ClientMessage::Text { dest: euuid, content: "Hello".to_string() },
    );
    let expected = vec![ClientReply::Transfer(
        s3,
        ServerMessage::Message(FullyQualifiedMessage {
            src: c1,
            srcsrv: sid,
            dsts: vec![(euuid, s1)],
            content: "Hello".to_string(),
        }),
    )];
    assert_eq!(r, expected);
}

fn message_to_outer_user_delayed_check() {
    let sid = ServerId::default();
    let checker = TestChecker::default();
    let mut server = Server::new(sid);
    let c1 = try_register(&mut server, &checker, "user 1").unwrap();
    let s1 = ServerId::default();
    let s2 = ServerId::default();
    let s3 = ServerId::default();
    let euuid = ClientId::default();
    let r = server.handle_client_message(
        c1,
        ClientMessage::Text { dest: euuid, content: "Hello".to_string() },
    );
    assert_eq!(r, vec![ClientReply::Delayed]);
    let r = server.handle_server_message(ServerMessage::Announce {
        route: vec![s1, s2, s3],
        clients: vec![(euuid, "external user".into())],
    });
    let expected = ServerReply::Outgoing(vec![Outgoing {
        nexthop: s3,
        message: FullyQualifiedMessage {
            src: c1,
            srcsrv: sid,
            dsts: vec![(euuid, s1)],
            content: "Hello".to_string(),
        },
    }]);
    assert_eq!(r, expected);
}

fn check_route(server: &Server, dest: ServerId, expected: Vec<ServerId>) {
    let rt = server.route_to(dest);
    assert_eq!(rt.as_ref(), Some(&expected), "wrong route to {dest:?}");
}

fn routing_check() {
    let sid = ServerId::default();
    let mut server = Server::new(sid);
    let s1 = ServerId::from(1);
    let s2 = ServerId::from(2);
    let s3 = ServerId::from(3);
    let s4 = ServerId::from(4);
    let s5 = ServerId::from(5);
    let s4_user = ClientId::default();
    let r = server.handle_server_message(ServerMessage::Announce {
        route: vec![s4, s3, s2, s1],
        clients: vec![(s4_user, "s4 user".into())],
    });
    let expected_empty_out = ServerReply::Outgoing(Vec::new());
    assert_eq!(r, expected_empty_out);
    check_route(&server, s4, vec![sid, s1, s2, s3, s4]);
    let r = server.handle_server_message(ServerMessage::Announce {
        route: vec![s2, s3, s4, s5],
        clients: Vec::new(),
    });
    assert_eq!(r, expected_empty_out);
    check_route(&server, s4, vec![sid, s5, s4]);
}

fn routing2_check() {
    let sid = ServerId::default();
    let mut server = Server::new(sid);
    let s1 = ServerId::from(1);
    let s2 = ServerId::from(2);
    let s3 = ServerId::from(3);
    let s4 = ServerId::from(4);
    let s5 = ServerId::from(5);
    let s6 = ServerId::from(6);
    let s7 = ServerId::from(7);
    let s7_user = ClientId::default();
    let r = server.handle_server_message(ServerMessage::Announce {
        route: vec![s7, s6, s2, s3, s4, s5],
        clients: vec![(s7_user, "user".to_string())],
    });
    let expected_empty_out = ServerReply::Outgoing(Vec::new());
    assert_eq!(r, expected_empty_out);
    let r = server.handle_server_message(ServerMessage::Announce {
        route: vec![s5, s4, s7, s6, s2, s1],
        clients: Vec::new(),
    });
    assert_eq!(r, expected_empty_out);
    check_route(&server, s4, vec![sid, s5, s4]);
    check_route(&server, s6, vec![sid, s1, s2, s6]);
    check_route(&server, s7, vec![sid, s5, s4, s7]);
}

#[test]
fn spammer_both() {
    spammer_both_check();
}

#[test]
fn spammer_ip() {
    spammer_ip_check();
}

#[test]
fn spammer_user() {
    spammer_user_check();
}

#[test]
fn spammer_delay_ip() {
    spammer_delay_ip_check();
}

#[test]
fn spammer_delay_user() {
    spammer_delay_user_check();
}

#[test]
fn sequence_correct() {
    sequence_correct_check();
}

#[test]
fn sequence_unknown_user() {
    sequence_unknown_user_check();
}

#[test]
fn sequence_replay() {
    sequence_replay_check();
}

#[test]
fn simple_client_test() {
    simple_client_check();
}

#[test]
fn list_users_test() {
    list_users_check();
}

#[test]
fn multiple_client_messages_test() {
    multiple_client_messages_check();
}

#[test]
fn mixed_results_client_message() {
    mixed_results_check();
}

#[test]
fn mailbox_full() {
    mailbox_full_check();
}

#[test]
fn message_to_outer_user() {
    message_to_outer_user_check();
}

#[test]
fn message_to_outer_user_delayed() {
    message_to_outer_user_delayed_check();
}

#[test]
fn routing_test() {
    routing_check();
}

#[test]
fn routing_test2() {
    routing2_check();
}

#[test]
fn tester() {
    sequence_correct_check();
    sequence_unknown_user_check();
    simple_client_check();
    list_users_check();
    multiple_client_messages_check();
    mixed_results_check();
    mailbox_full_check();
    spammer_ip_check();
    spammer_user_check();
    spammer_both_check();
    message_to_outer_user_check();
    message_to_outer_user_delayed_check();
    spammer_delay_ip_check();
    spammer_delay_user_check();
    routing_check();
    routing2_check();
}

#[test]
fn rejected_registration_leaks_nothing() {
    let sid = ServerId::default();
    let checker = TestChecker::new(CheckerMode::Fixed { ip: false, user: true });
    let mut server = Server::new(sid);
    assert!(try_register(&mut server, &checker, "troll").is_none());
    assert!(server.list_users().is_empty());
}

#[test]
fn empty_route_announce_is_inert() {
    let sid = ServerId::default();
    let mut server = Server::new(sid);
    let e = ClientId::default();
    let r = server.handle_server_message(ServerMessage::Announce {
        route: Vec::new(),
        clients: vec![(e, "nobody".into())],
    });
    assert_eq!(r, ServerReply::EmptyRoute);
    assert!(server.list_users().is_empty());
    assert_eq!(server.route_to(ServerId::from(1)), None);
}

#[test]
fn reannounce_keeps_routes() {
    let sid = ServerId::default();
    let mut server = Server::new(sid);
    let s1 = ServerId::from(1);
    let s2 = ServerId::from(2);
    let announce = ServerMessage::Announce { route: vec![s1, s2], clients: Vec::new() };
    server.handle_server_message(announce.clone());
    let first = server.route_to(s1);
    server.handle_server_message(announce);
    assert_eq!(server.route_to(s1), first);
    assert_eq!(first, Some(vec![sid, s2, s1]));
}

#[test]
fn hold_queue_drains_in_order() {
    let sid = ServerId::default();
    let checker = TestChecker::default();
    let mut server = Server::new(sid);
    let c1 = try_register(&mut server, &checker, "user 1").unwrap();
    let c2 = try_register(&mut server, &checker, "user 2").unwrap();
    let s1 = ServerId::from(1);
    let e = ClientId::default();
    let m1 = server.handle_client_message(
        c1,
        ClientMessage::Text { dest: e, content: "first".into() },
    );
    assert_eq!(m1, vec![ClientReply::Delayed]);
    let m2 = server.handle_client_message(
        c2,
        ClientMessage::Text { dest: e, content: "second".into() },
    );
    assert_eq!(m2, vec![ClientReply::Delayed]);
    let r = server.handle_server_message(ServerMessage::Announce {
        route: vec![s1],
        clients: vec![(e, "far away".into())],
    });
    let expected = ServerReply::Outgoing(vec![
        Outgoing {
            nexthop: s1,
            message: FullyQualifiedMessage {
                src: c1,
                srcsrv: sid,
                dsts: vec![(e, s1)],
                content: "first".into(),
            },
        },
        Outgoing {
            nexthop: s1,
            message: FullyQualifiedMessage {
                src: c2,
                srcsrv: sid,
                dsts: vec![(e, s1)],
                content: "second".into(),
            },
        },
    ]);
    assert_eq!(r, expected);
}

#[test]
fn transit_message_delivers_and_forwards() {
    let sid = ServerId::default();
    let checker = TestChecker::default();
    let mut server = Server::new(sid);
    let c1 = try_register(&mut server, &checker, "user 1").unwrap();
    let s1 = ServerId::from(1);
    let s2 = ServerId::from(2);
    let e = ClientId::default();
    server.handle_server_message(ServerMessage::Announce {
        route: vec![s1, s2],
        clients: vec![(e, "far away".into())],
    });
    let far_src = ClientId::default();
    let r = server.handle_server_message(ServerMessage::Message(FullyQualifiedMessage {
        src: far_src,
        srcsrv: s1,
        dsts: vec![(c1, sid), (e, s1)],
        content: "both".into(),
    }));
    let expected = ServerReply::Outgoing(vec![Outgoing {
        nexthop: s2,
        message: FullyQualifiedMessage {
            src: far_src,
            srcsrv: s1,
            dsts: vec![(e, s1)],
            content: "both".into(),
        },
    }]);
    assert_eq!(r, expected);
    assert_eq!(
        server.client_poll(c1),
        ClientPollReply::Message { src: far_src, content: "both".into() }
    );
}

#[test]
fn transit_message_drops_unknown() {
    let sid = ServerId::default();
    let mut server = Server::new(sid);
    let nobody = ClientId::default();
    let far_src = ClientId::default();
    let s9 = ServerId::from(9);
    let r = server.handle_server_message(ServerMessage::Message(FullyQualifiedMessage {
        src: far_src,
        srcsrv: s9,
        dsts: vec![(nobody, s9)],
        content: "void".into(),
    }));
    assert_eq!(r, ServerReply::Outgoing(Vec::new()));
}

#[test]
fn spam_decision_short_circuits() {
    // One true verdict decides, even while the other predicate has not
    // answered.
    assert_eq!(spam_decision(Some(true), None), Some(true));
    assert_eq!(spam_decision(None, Some(true)), Some(true));
    assert_eq!(spam_decision(Some(true), Some(false)), Some(true));
    assert_eq!(spam_decision(Some(false), Some(true)), Some(true));
    assert_eq!(spam_decision(Some(true), Some(true)), Some(true));
    // Admission needs both predicates to have answered false.
    assert_eq!(spam_decision(Some(false), Some(false)), Some(false));
    assert_eq!(spam_decision(Some(false), None), None);
    assert_eq!(spam_decision(None, Some(false)), None);
    assert_eq!(spam_decision(None, None), None);
}

#[test]
fn client_sequence_numbers() {
    let id = ClientId::new(42);
    let mut client = Client::new(id);
    let s1 = client.sequence("a");
    assert_eq!(s1.seqid, 1);
    assert_eq!(s1.src, id);
    assert_eq!(s1.content, "a");
    let s2 = client.sequence("b");
    assert_eq!(s2.seqid, 2);
    let s3 = client.sequence("c");
    assert_eq!(s3.seqid, 3);
}

#[test]
fn poll_is_local_only() {
    let sid = ServerId::default();
    let mut server = Server::new(sid);
    let stranger = ClientId::default();
    assert_eq!(server.client_poll(stranger), ClientPollReply::Nothing);
}

#[test]
fn default_checker_admits() {
    let checker = chatproto::checker::DefaultChecker::default();
    assert_eq!(checker.is_ip_spammer(&localhost()), Some(false));
    assert_eq!(checker.is_user_spammer("anyone"), Some(false));
    let sid = ServerId::default();
    let mut server = Server::new(sid);
    let r = server.register_local_client(
        checker.is_ip_spammer(&localhost()),
        checker.is_user_spammer("anyone"),
        "anyone".to_string(),
    );
    assert!(r.is_some());
}
