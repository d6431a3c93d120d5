//! End-to-end exercises of the hub: identification, group churn, message
//! routing, teardown, and the file-endpoint rules, at the level of the
//! decoded payloads the library works with.

use concierge::clients::Client;
use concierge::concierge::{Concierge, Group, GroupRemoval, RegisterError};
use concierge::fs::{
    authorize_owner, authorize_read, base_path, handle_file_get, multipart_target, upload_size_ok,
    FsError, MAX_UPLOAD_BYTES,
};
use concierge::payload::{
    ClientInfo, CloseReason, ErrorCode, Origin, PayloadIn, PayloadOut, StatusData, Target,
    CLOSE_BAD_SECRET, CLOSE_DUPLICATE_AUTH,
};
use concierge::router::{handle_payload, handle_raw_message};
use concierge::session::{
    handle_connection, handle_disconnect, handle_frame, handle_identification,
    handle_incoming_messages, make_client, FrameEvent, IdentifyEvent, SessionConfig, WsError,
};

fn cfg() -> SessionConfig {
    SessionConfig {
        version: "0.2.0".to_string(),
        min_version: "^0.2.0".to_string(),
        secret: None,
    }
}

fn identify(name: &str) -> IdentifyEvent {
    IdentifyEvent::Identify {
        name: name.to_string(),
        version: "0.2.0".to_string(),
        secret: None,
    }
}

fn connect(c: &mut Concierge, name: &str) -> u128 {
    let validated = handle_identification(&cfg(), identify(name)).unwrap();
    make_client(c, &cfg(), validated).unwrap()
}

fn drain(c: &mut Concierge, uuid: u128) -> Vec<PayloadOut> {
    c.drain_mailbox(uuid).unwrap()
}

#[test]
fn hello_then_join_broadcasts() {
    let mut c = Concierge::new();
    let ua = connect(&mut c, "alice");
    let ub = connect(&mut c, "bob");
    let a_frames = drain(&mut c, ua);
    assert_eq!(a_frames.len(), 3);
    assert_eq!(
        a_frames[0],
        PayloadOut::Hello { uuid: ua, version: "0.2.0".to_string() }
    );
    assert_eq!(
        a_frames[1],
        PayloadOut::Status {
            seq: None,
            data: StatusData::ClientJoined {
                data: ClientInfo { uuid: ua, name: "alice".to_string() }
            }
        }
    );
    assert_eq!(
        a_frames[2],
        PayloadOut::Status {
            seq: None,
            data: StatusData::ClientJoined {
                data: ClientInfo { uuid: ub, name: "bob".to_string() }
            }
        }
    );
    let b_frames = drain(&mut c, ub);
    assert_eq!(b_frames.len(), 2);
    assert_eq!(
        b_frames[0],
        PayloadOut::Hello { uuid: ub, version: "0.2.0".to_string() }
    );
    assert_eq!(
        b_frames[1],
        PayloadOut::Status {
            seq: None,
            data: StatusData::ClientJoined {
                data: ClientInfo { uuid: ub, name: "bob".to_string() }
            }
        }
    );
}

#[test]
fn group_message_reaches_both_subscribers_bit_exact() {
    let mut c = Concierge::new();
    let ua = connect(&mut c, "alice");
    let ub = connect(&mut c, "bob");
    handle_payload(&mut c, ua, 0, PayloadIn::GroupCreate { group: "chat".to_string() });
    handle_payload(&mut c, ua, 1, PayloadIn::Subscribe { group: "chat".to_string() });
    handle_payload(&mut c, ub, 0, PayloadIn::Subscribe { group: "chat".to_string() });
    drain(&mut c, ua);
    drain(&mut c, ub);
    let data = b"{\"hi\":1}".to_vec();
    handle_payload(
        &mut c,
        ua,
        2,
        PayloadIn::Message {
            target: Target::Group { group: "chat".to_string() },
            data: data.clone(),
        },
    );
    let expected = PayloadOut::Message {
        origin: Origin {
            uuid: ua,
            name: "alice".to_string(),
            group: Some("chat".to_string()),
        },
        target: Target::Group { group: "chat".to_string() },
        data: data.clone(),
    };
    let a_frames = drain(&mut c, ua);
    assert_eq!(a_frames.len(), 2);
    assert_eq!(a_frames[0], expected);
    assert_eq!(
        a_frames[1],
        PayloadOut::Status { seq: Some(2), data: StatusData::MessageSent }
    );
    let b_frames = drain(&mut c, ub);
    assert_eq!(b_frames, vec![expected]);
}

#[test]
fn message_to_unknown_name_yields_no_such_name() {
    let mut c = Concierge::new();
    let ua = connect(&mut c, "alice");
    drain(&mut c, ua);
    handle_raw_message(
        &mut c,
        ua,
        7,
        &Target::Name { name: "carol".to_string() },
        Vec::new(),
    );
    let frames = drain(&mut c, ua);
    assert_eq!(frames.len(), 1);
    match &frames[0] {
        PayloadOut::Error { seq, code, message: _ } => {
            assert_eq!(*seq, Some(7));
            assert_eq!(*code, ErrorCode::NoSuchName);
        }
        other => panic!("expected an error frame, got {:?}", other),
    }
}

#[test]
fn wrong_secret_is_closed_before_any_broadcast() {
    let config = SessionConfig {
        version: "0.2.0".to_string(),
        min_version: "^0.2.0".to_string(),
        secret: Some("right".to_string()),
    };
    let outcome = handle_identification(
        &config,
        IdentifyEvent::Identify {
            name: "alice".to_string(),
            version: "0.2.0".to_string(),
            secret: Some("wrong".to_string()),
        },
    );
    assert_eq!(outcome, Err(CloseReason::BadSecret));
    assert_eq!(CloseReason::BadSecret.close_code(), CLOSE_BAD_SECRET);
    let mut c = Concierge::new();
    assert_eq!(c.snapshot_clients().len(), 0);
    assert_eq!(c.snapshot_groups().len(), 0);
}

#[test]
fn matching_secret_and_version_pass_identification() {
    let config = SessionConfig {
        version: "0.2.0".to_string(),
        min_version: "^0.2.0".to_string(),
        secret: Some("right".to_string()),
    };
    let outcome = handle_identification(
        &config,
        IdentifyEvent::Identify {
            name: "alice".to_string(),
            version: "0.2.5".to_string(),
            secret: Some("right".to_string()),
        },
    );
    assert_eq!(outcome, Ok("alice".to_string()));
}

#[test]
fn version_outside_the_range_is_bad_version() {
    let outcome = handle_identification(
        &cfg(),
        IdentifyEvent::Identify {
            name: "alice".to_string(),
            version: "0.1.0".to_string(),
            secret: None,
        },
    );
    assert_eq!(outcome, Err(CloseReason::BadVersion));
    let garbled = handle_identification(
        &cfg(),
        IdentifyEvent::Identify {
            name: "alice".to_string(),
            version: "not-a-version".to_string(),
            secret: None,
        },
    );
    assert_eq!(garbled, Err(CloseReason::BadVersion));
}

#[test]
fn identification_failures_map_to_close_codes() {
    assert_eq!(
        handle_identification(&cfg(), IdentifyEvent::Absent),
        Err(CloseReason::AuthFailed)
    );
    assert_eq!(
        handle_identification(&cfg(), IdentifyEvent::Malformed),
        Err(CloseReason::FatalDecode)
    );
    assert_eq!(
        handle_identification(&cfg(), IdentifyEvent::NotIdentify),
        Err(CloseReason::NoAuth)
    );
}

#[test]
fn owner_disconnect_reaps_group_then_announces_leave() {
    let mut c = Concierge::new();
    let ua = connect(&mut c, "alice");
    let ub = connect(&mut c, "bob");
    handle_payload(&mut c, ua, 0, PayloadIn::GroupCreate { group: "chat".to_string() });
    handle_payload(&mut c, ub, 0, PayloadIn::Subscribe { group: "chat".to_string() });
    drain(&mut c, ua);
    drain(&mut c, ub);
    let info = handle_disconnect(&mut c, ua).unwrap();
    assert_eq!(info, ClientInfo { uuid: ua, name: "alice".to_string() });
    let b_frames = drain(&mut c, ub);
    assert_eq!(b_frames.len(), 2);
    assert_eq!(
        b_frames[0],
        PayloadOut::Status {
            seq: None,
            data: StatusData::Unsubscribed { group: "chat".to_string() }
        }
    );
    assert_eq!(
        b_frames[1],
        PayloadOut::Status {
            seq: None,
            data: StatusData::ClientLeft {
                data: ClientInfo { uuid: ua, name: "alice".to_string() }
            }
        }
    );
    assert_eq!(c.snapshot_groups().len(), 0);
    assert!(c.drain_mailbox(ua).is_none());
}

#[test]
fn racing_identifications_one_hello_one_duplicate_auth() {
    let mut c = Concierge::new();
    let first = make_client(&mut c, &cfg(), "alice".to_string());
    let second = make_client(&mut c, &cfg(), "alice".to_string());
    let ua = first.unwrap();
    assert_eq!(second, Err(WsError::DuplicateAuth));
    assert_eq!(CloseReason::DuplicateAuth.close_code(), CLOSE_DUPLICATE_AUTH);
    let clients = c.snapshot_clients();
    assert_eq!(clients.len(), 1);
    assert_eq!(clients[0], ClientInfo { uuid: ua, name: "alice".to_string() });
    let frames = drain(&mut c, ua);
    let hellos = frames
        .iter()
        .filter(|f| matches!(f, PayloadOut::Hello { .. }))
        .count();
    assert_eq!(hellos, 1);
}

#[test]
fn unsubscribe_is_idempotent_for_non_members() {
    let mut c = Concierge::new();
    let ua = connect(&mut c, "alice");
    let ub = connect(&mut c, "bob");
    handle_payload(&mut c, ua, 0, PayloadIn::GroupCreate { group: "chat".to_string() });
    handle_payload(&mut c, ua, 1, PayloadIn::Subscribe { group: "chat".to_string() });
    drain(&mut c, ua);
    drain(&mut c, ub);
    let members_before = c.snapshot_members(&"chat".to_string()).unwrap();
    handle_payload(&mut c, ub, 0, PayloadIn::Unsubscribe { group: "chat".to_string() });
    let b_frames = drain(&mut c, ub);
    assert_eq!(
        b_frames,
        vec![PayloadOut::Status {
            seq: Some(0),
            data: StatusData::Unsubscribed { group: "chat".to_string() }
        }]
    );
    let members_after = c.snapshot_members(&"chat".to_string()).unwrap();
    assert_eq!(members_before, members_after);
    assert_eq!(
        c.snapshot_subscriptions(ua).unwrap(),
        vec!["chat".to_string()]
    );
}

#[test]
fn group_errors_carry_the_right_codes() {
    let mut c = Concierge::new();
    let ua = connect(&mut c, "alice");
    let ub = connect(&mut c, "bob");
    handle_payload(&mut c, ua, 0, PayloadIn::GroupCreate { group: "chat".to_string() });
    drain(&mut c, ua);
    drain(&mut c, ub);
    // Creating it again: already created.
    handle_payload(&mut c, ub, 0, PayloadIn::GroupCreate { group: "chat".to_string() });
    // Deleting someone else's group: unauthorized.
    handle_payload(&mut c, ub, 1, PayloadIn::GroupDelete { group: "chat".to_string() });
    // Touching a group that does not exist.
    handle_payload(&mut c, ub, 2, PayloadIn::Subscribe { group: "nowhere".to_string() });
    let frames = drain(&mut c, ub);
    let codes: Vec<(Option<u64>, ErrorCode)> = frames
        .iter()
        .map(|f| match f {
            PayloadOut::Error { seq, code, message: _ } => (*seq, *code),
            other => panic!("expected errors, got {:?}", other),
        })
        .collect();
    assert_eq!(
        codes,
        vec![
            (Some(0), ErrorCode::GroupAlreadyCreated),
            (Some(1), ErrorCode::Unauthorized),
            (Some(2), ErrorCode::NoSuchGroup),
        ]
    );
}

#[test]
fn unknown_uuid_and_unsupported_payloads() {
    let mut c = Concierge::new();
    let ua = connect(&mut c, "alice");
    drain(&mut c, ua);
    handle_payload(
        &mut c,
        ua,
        0,
        PayloadIn::Message { target: Target::Uuid { uuid: ua.wrapping_add(1) }, data: Vec::new() },
    );
    handle_payload(&mut c, ua, 1, PayloadIn::Other);
    handle_payload(&mut c, ua, 2, identify_payload());
    let frames = drain(&mut c, ua);
    assert_eq!(frames.len(), 3);
    for (i, code) in [
        ErrorCode::NoSuchUuid,
        ErrorCode::Unsupported,
        ErrorCode::Unsupported,
    ]
    .iter()
    .enumerate()
    {
        match &frames[i] {
            PayloadOut::Error { seq, code: c2, message: _ } => {
                assert_eq!(*seq, Some(i as u64));
                assert_eq!(c2, code);
            }
            other => panic!("expected an error frame, got {:?}", other),
        }
    }
}

fn identify_payload() -> PayloadIn {
    PayloadIn::Identify {
        name: "again".to_string(),
        version: "0.2.0".to_string(),
        secret: None,
    }
}

#[test]
fn message_to_all_and_by_name() {
    let mut c = Concierge::new();
    let ua = connect(&mut c, "alice");
    let ub = connect(&mut c, "bob");
    drain(&mut c, ua);
    drain(&mut c, ub);
    let data = b"x".to_vec();
    handle_payload(
        &mut c,
        ua,
        0,
        PayloadIn::Message { target: Target::All, data: data.clone() },
    );
    let b_frames = drain(&mut c, ub);
    assert_eq!(
        b_frames,
        vec![PayloadOut::Message {
            origin: Origin { uuid: ua, name: "alice".to_string(), group: None },
            target: Target::All,
            data: data.clone(),
        }]
    );
    handle_payload(
        &mut c,
        ub,
        0,
        PayloadIn::Message {
            target: Target::Name { name: "alice".to_string() },
            data: b"y".to_vec(),
        },
    );
    let a_frames = drain(&mut c, ua);
    // Alice still held her own copy of the ALL message and its receipt.
    assert_eq!(a_frames.len(), 3);
    assert_eq!(
        a_frames[2],
        PayloadOut::Message {
            origin: Origin { uuid: ub, name: "bob".to_string(), group: None },
            target: Target::Name { name: "alice".to_string() },
            data: b"y".to_vec(),
        }
    );
}

#[test]
fn fetches_reflect_the_registry() {
    let mut c = Concierge::new();
    let ua = connect(&mut c, "alice");
    let ub = connect(&mut c, "bob");
    handle_payload(&mut c, ua, 0, PayloadIn::GroupCreate { group: "chat".to_string() });
    handle_payload(&mut c, ua, 1, PayloadIn::Subscribe { group: "chat".to_string() });
    drain(&mut c, ua);
    drain(&mut c, ub);
    handle_payload(&mut c, ub, 0, PayloadIn::FetchClients);
    handle_payload(&mut c, ub, 1, PayloadIn::FetchGroups);
    handle_payload(&mut c, ub, 2, PayloadIn::FetchSubscriptions);
    handle_payload(
        &mut c,
        ub,
        3,
        PayloadIn::FetchGroupSubscribers { group: "chat".to_string() },
    );
    let frames = drain(&mut c, ub);
    assert_eq!(
        frames[0],
        PayloadOut::Clients {
            seq: Some(0),
            clients: vec![
                ClientInfo { uuid: ua, name: "alice".to_string() },
                ClientInfo { uuid: ub, name: "bob".to_string() },
            ]
        }
    );
    assert_eq!(
        frames[1],
        PayloadOut::Groups { seq: Some(1), groups: vec!["chat".to_string()] }
    );
    assert_eq!(
        frames[2],
        PayloadOut::Subscriptions { seq: Some(2), groups: Vec::new() }
    );
    assert_eq!(
        frames[3],
        PayloadOut::GroupSubscribers {
            seq: Some(3),
            group: "chat".to_string(),
            clients: vec![ClientInfo { uuid: ua, name: "alice".to_string() }]
        }
    );
}

#[test]
fn serving_loop_seq_is_stream_position() {
    let mut c = Concierge::new();
    let ua = connect(&mut c, "alice");
    drain(&mut c, ua);
    let frames = vec![
        FrameEvent::Payload(PayloadIn::GroupCreate { group: "chat".to_string() }),
        FrameEvent::Malformed { message: "bad json".to_string() },
        FrameEvent::Payload(PayloadIn::Subscribe { group: "chat".to_string() }),
    ];
    let count = handle_incoming_messages(&mut c, ua, frames);
    assert_eq!(count, 3);
    let replies = drain(&mut c, ua);
    assert_eq!(
        replies[0],
        PayloadOut::Status {
            seq: Some(0),
            data: StatusData::CreatedGroup { group: "chat".to_string() }
        }
    );
    match &replies[1] {
        PayloadOut::Error { seq, code, message } => {
            assert_eq!(*seq, Some(1));
            assert_eq!(*code, ErrorCode::Protocol);
            assert_eq!(message, "bad json");
        }
        other => panic!("expected a protocol error, got {:?}", other),
    }
    assert_eq!(
        replies[2],
        PayloadOut::Status {
            seq: Some(2),
            data: StatusData::Subscribed { group: "chat".to_string() }
        }
    );
}

#[test]
fn handle_frame_advances_seq_on_every_frame() {
    let mut c = Concierge::new();
    let ua = connect(&mut c, "alice");
    drain(&mut c, ua);
    let s1 = handle_frame(
        &mut c,
        ua,
        0,
        FrameEvent::Malformed { message: "garbage".to_string() },
    );
    assert_eq!(s1, 1);
    let s2 = handle_frame(&mut c, ua, s1, FrameEvent::Payload(PayloadIn::FetchGroups));
    assert_eq!(s2, 2);
}

#[test]
fn group_delete_by_owner_notifies_members() {
    let mut c = Concierge::new();
    let ua = connect(&mut c, "alice");
    let ub = connect(&mut c, "bob");
    handle_payload(&mut c, ua, 0, PayloadIn::GroupCreate { group: "chat".to_string() });
    handle_payload(&mut c, ub, 0, PayloadIn::Subscribe { group: "chat".to_string() });
    drain(&mut c, ua);
    drain(&mut c, ub);
    handle_payload(&mut c, ua, 1, PayloadIn::GroupDelete { group: "chat".to_string() });
    assert_eq!(
        drain(&mut c, ua),
        vec![PayloadOut::Status {
            seq: Some(1),
            data: StatusData::DeletedGroup { group: "chat".to_string() }
        }]
    );
    assert_eq!(
        drain(&mut c, ub),
        vec![PayloadOut::Status {
            seq: None,
            data: StatusData::Unsubscribed { group: "chat".to_string() }
        }]
    );
    assert_eq!(c.snapshot_subscriptions(ub).unwrap(), Vec::<String>::new());
    assert_eq!(c.snapshot_groups().len(), 0);
}

#[test]
fn registry_ops_resolve_names_and_uuids() {
    let mut c = Concierge::new();
    let ua = connect(&mut c, "alice");
    assert_eq!(c.resolve_name(&"alice".to_string()), Some(ua));
    assert_eq!(c.resolve_name(&"bob".to_string()), None);
    assert_eq!(c.resolve_uuid(ua), Some("alice".to_string()));
    assert_eq!(c.resolve_uuid(ua.wrapping_add(1)), None);
    let gone = c.remove_client(ua).unwrap();
    assert_eq!(gone.name(), "alice");
    assert_eq!(gone.uuid(), ua);
    assert!(c.remove_client(ua).is_none());
    assert_eq!(c.resolve_name(&"alice".to_string()), None);
}

#[test]
fn remove_group_distinguishes_outcomes() {
    let mut c = Concierge::new();
    let ua = connect(&mut c, "alice");
    let ub = connect(&mut c, "bob");
    assert!(c.create_group("chat".to_string(), ua));
    assert!(!c.create_group("chat".to_string(), ub));
    assert_eq!(
        c.remove_group(&"nowhere".to_string(), ua),
        GroupRemoval::NotFound
    );
    assert_eq!(c.remove_group(&"chat".to_string(), ub), GroupRemoval::NotOwner);
    assert_eq!(c.remove_group(&"chat".to_string(), ua), GroupRemoval::Deleted);
}

#[test]
fn client_and_group_types_stand_alone() {
    let mut client = Client::new(7, "carol".to_string());
    assert_eq!(client.uuid(), 7);
    assert_eq!(client.name(), "carol");
    assert_eq!(
        client.make_payload(),
        ClientInfo { uuid: 7, name: "carol".to_string() }
    );
    assert_eq!(
        client.origin_receipt(),
        Origin { uuid: 7, name: "carol".to_string(), group: None }
    );
    client.send(PayloadOut::Status { seq: Some(1), data: StatusData::MessageSent });
    client.send(PayloadOut::Status { seq: Some(2), data: StatusData::MessageSent });
    let out = client.drain_mailbox();
    assert_eq!(out.len(), 2);
    assert_eq!(
        out[0],
        PayloadOut::Status { seq: Some(1), data: StatusData::MessageSent }
    );
    let g = Group::new("room".to_string(), 7);
    assert_eq!(g.name, "room");
    assert_eq!(g.owner, 7);
    assert!(g.clients.is_empty());
}

#[test]
fn register_with_uuid_checks_both_tables() {
    let mut c = Concierge::new();
    assert!(c.register_with_uuid("alice".to_string(), 11).is_ok());
    assert_eq!(
        c.register_with_uuid("alice".to_string(), 12),
        Err(RegisterError::DuplicateName)
    );
    assert_eq!(
        c.register_with_uuid("bob".to_string(), 11),
        Err(RegisterError::IdCollision)
    );
    // An id stays issued even after its client leaves.
    c.remove_client(11).unwrap();
    assert_eq!(
        c.register_with_uuid("carol".to_string(), 11),
        Err(RegisterError::IdCollision)
    );
}

#[test]
fn teardown_primitives_touch_only_their_table() {
    let mut c = Concierge::new();
    c.register_with_uuid("alice".to_string(), 11).unwrap();
    c.remove_name(&"alice".to_string());
    assert_eq!(c.resolve_name(&"alice".to_string()), None);
    let mut c2 = Concierge::new();
    c2.register_with_uuid("alice".to_string(), 11).unwrap();
    assert!(c2.create_group("chat".to_string(), 11));
    c2.subscribe(11, &"chat".to_string());
    // A connected client is in no member list it did not join, so
    // trimming an absent id changes nothing.
    c2.remove_from_all_groups(99);
    assert_eq!(
        c2.snapshot_members(&"chat".to_string()).unwrap(),
        vec![ClientInfo { uuid: 11, name: "alice".to_string() }]
    );
}

#[test]
fn file_endpoint_rules() {
    let mut c = Concierge::new();
    let ua = connect(&mut c, "alice");
    let ub = connect(&mut c, "bob");
    assert_eq!(base_path("alice"), "./fs/alice".to_string());
    assert!(authorize_read(&c, ua).is_ok());
    assert!(authorize_read(&c, ub).is_ok());
    assert_eq!(
        authorize_read(&c, ua.wrapping_add(1)),
        Err(FsError::BadAuthorization)
    );
    assert!(authorize_owner(&c, ua, &"alice".to_string()).is_ok());
    assert_eq!(
        authorize_owner(&c, ub, &"alice".to_string()),
        Err(FsError::Forbidden)
    );
    assert_eq!(
        authorize_owner(&c, ua.wrapping_add(1), &"alice".to_string()),
        Err(FsError::BadAuthorization)
    );
    assert!(handle_file_get(&c, ub, true, true, true).is_ok());
    assert_eq!(
        handle_file_get(&c, ub, false, true, true),
        Err(FsError::Encoding)
    );
    assert_eq!(
        handle_file_get(&c, ub, true, false, false),
        Err(FsError::FileNotFound)
    );
    assert_eq!(
        handle_file_get(&c, ub, true, true, false),
        Err(FsError::NotAFile)
    );
    assert!(upload_size_ok(MAX_UPLOAD_BYTES));
    assert!(!upload_size_ok(MAX_UPLOAD_BYTES + 1));
    assert!(upload_size_ok(0));
}

#[test]
fn resubscribe_is_idempotent() {
    let mut c = Concierge::new();
    let ua = connect(&mut c, "alice");
    assert!(c.create_group("chat".to_string(), ua));
    assert!(c.subscribe(ua, &"chat".to_string()));
    assert!(c.subscribe(ua, &"chat".to_string()));
    assert_eq!(
        c.snapshot_members(&"chat".to_string()).unwrap(),
        vec![ClientInfo { uuid: ua, name: "alice".to_string() }]
    );
    assert_eq!(
        c.snapshot_subscriptions(ua).unwrap(),
        vec!["chat".to_string()]
    );
    assert!(!c.subscribe(ua, &"nowhere".to_string()));
}

#[test]
fn group_handle_broadcasts_through_the_hub() {
    let mut c = Concierge::new();
    let ua = connect(&mut c, "alice");
    assert!(c.create_group("room".to_string(), ua));
    assert!(c.subscribe(ua, &"room".to_string()));
    drain(&mut c, ua);
    let g = Group::new("room".to_string(), ua);
    let frame = PayloadOut::Status { seq: None, data: StatusData::MessageSent };
    assert!(g.broadcast(&mut c, &frame));
    assert_eq!(drain(&mut c, ua), vec![frame]);
    let missing = Group::new("nowhere".to_string(), ua);
    assert!(!missing.broadcast(
        &mut c,
        &PayloadOut::Status { seq: None, data: StatusData::MessageSent }
    ));
}

#[test]
fn enqueue_reports_whether_the_client_is_connected() {
    let mut c = Concierge::new();
    let ua = connect(&mut c, "alice");
    drain(&mut c, ua);
    let frame = PayloadOut::Status { seq: Some(9), data: StatusData::MessageSent };
    assert!(c.enqueue(ua, frame.clone()));
    assert!(!c.enqueue(ua.wrapping_add(1), frame.clone()));
    assert_eq!(drain(&mut c, ua), vec![frame]);
}

#[test]
fn refused_connection_leaves_the_registry_untouched() {
    let config = SessionConfig {
        version: "0.2.0".to_string(),
        min_version: "^0.2.0".to_string(),
        secret: Some("right".to_string()),
    };
    let mut c = Concierge::new();
    let ua = {
        let ok = handle_connection(
            &mut c,
            &config,
            IdentifyEvent::Identify {
                name: "alice".to_string(),
                version: "0.2.0".to_string(),
                secret: Some("right".to_string()),
            },
        );
        ok.unwrap()
    };
    drain(&mut c, ua);
    // A wrong secret is refused before anything reaches the registry:
    // tables as before, and no broadcast in any mailbox.
    let refused = handle_connection(
        &mut c,
        &config,
        IdentifyEvent::Identify {
            name: "mallory".to_string(),
            version: "0.2.0".to_string(),
            secret: Some("wrong".to_string()),
        },
    );
    assert_eq!(refused, Err(CloseReason::BadSecret));
    assert_eq!(c.snapshot_clients().len(), 1);
    assert_eq!(drain(&mut c, ua), Vec::<PayloadOut>::new());
    // A taken name likewise.
    let duplicate = handle_connection(
        &mut c,
        &config,
        IdentifyEvent::Identify {
            name: "alice".to_string(),
            version: "0.2.0".to_string(),
            secret: Some("right".to_string()),
        },
    );
    assert_eq!(duplicate, Err(CloseReason::DuplicateAuth));
    assert_eq!(c.snapshot_clients().len(), 1);
    assert_eq!(drain(&mut c, ua), Vec::<PayloadOut>::new());
    // And the failure events map to their codes without touching state.
    assert_eq!(
        handle_connection(&mut c, &config, IdentifyEvent::Absent),
        Err(CloseReason::AuthFailed)
    );
    assert_eq!(c.snapshot_clients().len(), 1);
}

#[test]
fn multipart_parts_land_beside_the_destination() {
    assert_eq!(
        multipart_target("./fs/alice/", "upload.bin", &Some("part1.png".to_string())),
        "./fs/alice/part1.png".to_string()
    );
    assert_eq!(
        multipart_target("./fs/alice/", "upload.bin", &None),
        "./fs/alice/upload.bin".to_string()
    );
}
