use remcached::connection::{Interest, ReadOutcome, WriteOutcome};
use remcached::server::{AcceptOutcome, Action, Event, Plan, Remcached};
use remcached::table::LISTENER;

fn text(s: &str) -> String {
    String::from(s)
}

fn accept(server: &mut Remcached) -> usize {
    assert!(matches!(server.ready(LISTENER, true, false), Plan::Accept));
    match server.complete(LISTENER, Event::Accept(AcceptOutcome::Accepted)) {
        Action::Register(token) => token,
        other => panic!("expected a registration, got {:?}", other),
    }
}

fn send(server: &mut Remcached, token: usize, bytes: &[u8]) -> Action {
    assert!(matches!(server.ready(token, true, false), Plan::Read));
    server.complete(token, Event::Read(ReadOutcome::Data(bytes.to_vec())))
}

fn pending(server: &Remcached, token: usize) -> Vec<u8> {
    match server.ready(token, false, true) {
        Plan::Write(bytes) => bytes.to_vec(),
        other => panic!("expected a write, got {:?}", other),
    }
}

/// Sends one request and takes the whole response in one write.
fn exchange(server: &mut Remcached, token: usize, request: &[u8]) -> Vec<u8> {
    assert_eq!(send(server, token, request), Action::Rearm(token, Interest::Writable));
    let response = pending(server, token);
    let done = server.complete(token, Event::Write(WriteOutcome::Wrote(response.len())));
    assert_eq!(done, Action::Rearm(token, Interest::Readable));
    response
}

#[test]
fn scenario_get_set_get_over_a_connection() {
    let mut server = Remcached::new();
    let token = accept(&mut server);
    assert_eq!(exchange(&mut server, token, b"get alpha \n"), Vec::<u8>::new());
    assert_eq!(exchange(&mut server, token, b"set alpha \nhello\n"), vec![111, 107, 10]);
    assert_eq!(server.storage().get(&text("alpha")), Some(&text("hello")));
    assert_eq!(
        exchange(&mut server, token, b"get alpha \n"),
        vec![104, 101, 108, 108, 111]
    );
}

#[test]
fn scenario_a_peer_that_disconnects_at_once_leaves_the_table() {
    let mut server = Remcached::new();
    let token = accept(&mut server);
    assert!(matches!(server.ready(token, true, false), Plan::Read));
    let action = server.complete(token, Event::Read(ReadOutcome::Data(Vec::new())));
    assert_eq!(action, Action::Close(token));
    assert!(matches!(server.ready(token, true, false), Plan::Unknown));
    assert_eq!(server.complete(token, Event::Read(ReadOutcome::End)), Action::Nothing);

    let token = accept(&mut server);
    assert_eq!(server.complete(token, Event::Read(ReadOutcome::End)), Action::Close(token));
    assert!(matches!(server.ready(token, true, true), Plan::Unknown));
}

#[test]
fn two_connections_share_the_store() {
    let mut server = Remcached::new();
    let a = accept(&mut server);
    let b = accept(&mut server);
    assert!(a != b);
    assert_eq!(exchange(&mut server, b, b"get shared x\n"), Vec::<u8>::new());
    assert_eq!(exchange(&mut server, a, b"set shared x\nfrom a\n"), b"ok\n".to_vec());
    assert_eq!(exchange(&mut server, b, b"get shared y\n"), b"from a".to_vec());
    assert_eq!(exchange(&mut server, b, b"set shared y\nfrom b\n"), b"ok\n".to_vec());
    assert_eq!(exchange(&mut server, a, b"get shared \n"), b"from b".to_vec());
}

#[test]
fn the_store_outlives_the_connection_that_wrote_it() {
    let mut server = Remcached::new();
    let a = accept(&mut server);
    assert_eq!(exchange(&mut server, a, b"set k \nv\n"), b"ok\n".to_vec());
    assert_eq!(server.complete(a, Event::Read(ReadOutcome::End)), Action::Close(a));
    let b = accept(&mut server);
    assert_eq!(exchange(&mut server, b, b"get k \n"), b"v".to_vec());
}

#[test]
fn nothing_is_answered_before_the_request_is_whole() {
    let mut server = Remcached::new();
    let token = accept(&mut server);
    for piece in [&b"se"[..], b"t al", b"pha \n", b"hel", b"lo"] {
        assert_eq!(send(&mut server, token, piece), Action::Rearm(token, Interest::Readable));
        assert!(matches!(server.ready(token, false, true), Plan::Mismatch(Interest::Readable)));
        assert_eq!(server.storage().get(&text("alpha")), None);
    }
    assert_eq!(send(&mut server, token, b"\n"), Action::Rearm(token, Interest::Writable));
    assert_eq!(pending(&server, token), b"ok\n".to_vec());
    assert_eq!(server.storage().get(&text("alpha")), Some(&text("hello")));
}

#[test]
fn a_split_request_is_answered_as_the_whole_one() {
    let mut whole = Remcached::new();
    let w = accept(&mut whole);
    assert_eq!(exchange(&mut whole, w, b"set k \nvalue\n"), b"ok\n".to_vec());
    let expected = exchange(&mut whole, w, b"get k rest\n");

    let mut split = Remcached::new();
    let s = accept(&mut split);
    assert_eq!(send(&mut split, s, b"set k"), Action::Rearm(s, Interest::Readable));
    assert_eq!(send(&mut split, s, b" \nval"), Action::Rearm(s, Interest::Readable));
    assert_eq!(exchange(&mut split, s, b"ue\n"), b"ok\n".to_vec());
    assert_eq!(send(&mut split, s, b"g"), Action::Rearm(s, Interest::Readable));
    assert_eq!(send(&mut split, s, b"et k re"), Action::Rearm(s, Interest::Readable));
    let answer = exchange(&mut split, s, b"st\n");
    assert_eq!(answer, expected);
    assert_eq!(answer, b"value".to_vec());
}

#[test]
fn a_response_is_flushed_over_several_writes() {
    let mut server = Remcached::new();
    let token = accept(&mut server);
    assert_eq!(exchange(&mut server, token, b"set k \n0123456789\n"), b"ok\n".to_vec());
    assert_eq!(send(&mut server, token, b"get k \n"), Action::Rearm(token, Interest::Writable));
    assert_eq!(pending(&server, token), b"0123456789".to_vec());
    assert_eq!(
        server.complete(token, Event::Write(WriteOutcome::Wrote(4))),
        Action::Rearm(token, Interest::Writable)
    );
    assert_eq!(pending(&server, token), b"456789".to_vec());
    assert_eq!(
        server.complete(token, Event::Write(WriteOutcome::WouldBlock)),
        Action::Rearm(token, Interest::Writable)
    );
    assert_eq!(pending(&server, token), b"456789".to_vec());
    assert!(matches!(server.ready(token, true, false), Plan::Mismatch(Interest::Writable)));
    assert_eq!(
        server.complete(token, Event::Write(WriteOutcome::Wrote(6))),
        Action::Rearm(token, Interest::Readable)
    );
    assert!(matches!(server.ready(token, true, false), Plan::Read));
}

#[test]
fn a_failed_write_removes_the_connection_only() {
    let mut server = Remcached::new();
    let a = accept(&mut server);
    let b = accept(&mut server);
    assert_eq!(send(&mut server, a, b"set k \nv\n"), Action::Rearm(a, Interest::Writable));
    assert_eq!(server.complete(a, Event::Write(WriteOutcome::Failed)), Action::Close(a));
    assert!(matches!(server.ready(a, false, true), Plan::Unknown));
    assert_eq!(exchange(&mut server, b, b"get k \n"), b"v".to_vec());
}

#[test]
fn a_failed_read_removes_the_connection_only() {
    let mut server = Remcached::new();
    let a = accept(&mut server);
    let b = accept(&mut server);
    assert_eq!(server.complete(a, Event::Read(ReadOutcome::Failed)), Action::Close(a));
    assert!(matches!(server.ready(a, true, false), Plan::Unknown));
    assert_eq!(exchange(&mut server, b, b"set k \nv\n"), b"ok\n".to_vec());
}

#[test]
fn a_malformed_request_closes_its_connection() {
    let mut server = Remcached::new();
    let a = accept(&mut server);
    let b = accept(&mut server);
    assert_eq!(send(&mut server, a, b"delete k\n"), Action::Close(a));
    assert!(matches!(server.ready(a, true, false), Plan::Unknown));
    assert_eq!(exchange(&mut server, b, b"get k \n"), Vec::<u8>::new());
}

#[test]
fn a_listener_that_would_block_changes_nothing() {
    let mut server = Remcached::new();
    assert_eq!(
        server.complete(LISTENER, Event::Accept(AcceptOutcome::WouldBlock)),
        Action::Nothing
    );
    assert!(matches!(server.ready(LISTENER, true, false), Plan::Accept));
    assert_eq!(accept(&mut server), 1);
}

#[test]
fn a_failed_listener_stops_accepting_and_keeps_serving() {
    let mut server = Remcached::new();
    let token = accept(&mut server);
    assert_eq!(
        server.complete(LISTENER, Event::Accept(AcceptOutcome::Failed)),
        Action::StopAccepting
    );
    assert!(matches!(server.ready(LISTENER, true, false), Plan::Mismatch(Interest::Nothing)));
    assert_eq!(
        server.complete(LISTENER, Event::Accept(AcceptOutcome::Accepted)),
        Action::Refuse
    );
    assert_eq!(
        server.complete(LISTENER, Event::Accept(AcceptOutcome::Failed)),
        Action::Nothing
    );
    assert_eq!(exchange(&mut server, token, b"set k \nv\n"), b"ok\n".to_vec());
    assert_eq!(exchange(&mut server, token, b"get k \n"), b"v".to_vec());
}

#[test]
fn the_listener_waits_for_readable_only() {
    let server = Remcached::new();
    assert!(matches!(server.ready(LISTENER, true, true), Plan::Accept));
    assert!(matches!(server.ready(LISTENER, false, true), Plan::Mismatch(Interest::Readable)));
    assert!(matches!(server.ready(LISTENER, false, false), Plan::Mismatch(Interest::Readable)));
}

#[test]
fn events_that_do_not_belong_to_the_token_change_nothing() {
    let mut server = Remcached::new();
    let token = accept(&mut server);
    assert_eq!(
        server.complete(LISTENER, Event::Read(ReadOutcome::Data(b"get k \n".to_vec()))),
        Action::Nothing
    );
    assert_eq!(
        server.complete(LISTENER, Event::Write(WriteOutcome::Wrote(1))),
        Action::Nothing
    );
    assert_eq!(
        server.complete(token, Event::Accept(AcceptOutcome::Accepted)),
        Action::Nothing
    );
    assert_eq!(
        server.complete(token + 1, Event::Read(ReadOutcome::Data(b"get k \n".to_vec()))),
        Action::Nothing
    );
    assert_eq!(
        server.complete(usize::MAX, Event::Write(WriteOutcome::Failed)),
        Action::Nothing
    );
    assert!(matches!(server.ready(token, true, false), Plan::Read));
    assert!(matches!(server.ready(token + 1, true, false), Plan::Unknown));
    assert!(matches!(server.ready(usize::MAX, true, true), Plan::Unknown));
}

#[test]
fn an_outcome_of_the_wrong_kind_rearms_for_the_state() {
    let mut server = Remcached::new();
    let token = accept(&mut server);
    assert_eq!(
        server.complete(token, Event::Write(WriteOutcome::Wrote(3))),
        Action::Rearm(token, Interest::Readable)
    );
    assert_eq!(send(&mut server, token, b"set k \nv\n"), Action::Rearm(token, Interest::Writable));
    assert_eq!(
        server.complete(token, Event::Read(ReadOutcome::End)),
        Action::Rearm(token, Interest::Writable)
    );
    assert_eq!(pending(&server, token), b"ok\n".to_vec());
}

#[test]
fn a_token_is_reused_only_after_its_connection_is_gone() {
    let mut server = Remcached::new();
    let a = accept(&mut server);
    let b = accept(&mut server);
    let c = accept(&mut server);
    assert!(a != b && b != c && a != c);
    assert_eq!(send(&mut server, b, b"get"), Action::Rearm(b, Interest::Readable));
    assert_eq!(server.complete(a, Event::Read(ReadOutcome::End)), Action::Close(a));
    let d = accept(&mut server);
    assert!(d != b && d != c && d != LISTENER);
    assert!(matches!(server.ready(d, true, false), Plan::Read));
    assert_eq!(send(&mut server, b, b" k \n"), Action::Rearm(b, Interest::Writable));
    assert_eq!(send(&mut server, d, b"get k \n"), Action::Rearm(d, Interest::Writable));
}

#[test]
fn more_connections_than_the_first_slots_are_served() {
    let mut server = Remcached::new();
    let mut tokens = Vec::new();
    for _ in 0..2500 {
        tokens.push(accept(&mut server));
    }
    let last = *tokens.last().expect("a token");
    let first = tokens[0];
    assert_eq!(exchange(&mut server, last, b"set k \nv\n"), b"ok\n".to_vec());
    assert_eq!(exchange(&mut server, first, b"get k \n"), b"v".to_vec());
    tokens.sort();
    tokens.dedup();
    assert_eq!(tokens.len(), 2500);
}
