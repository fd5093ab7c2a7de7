use remcached::connection::{Connection, Interest, ReadOutcome, State, Task, WriteOutcome};
use remcached::framing::Method;
use remcached::proto::Parsed;

fn reading(connection: &Connection) -> Vec<u8> {
    match &connection.state {
        State::Reading(buf) => buf.clone(),
        other => panic!("expected a reading connection, got {:?}", other),
    }
}

fn writing(connection: &Connection) -> (Vec<u8>, usize) {
    match &connection.state {
        State::Writing(bytes, offset) => (bytes.clone(), *offset),
        other => panic!("expected a writing connection, got {:?}", other),
    }
}

#[test]
fn a_new_connection_reads_with_an_empty_buffer() {
    let connection = Connection::new(7);
    assert_eq!(connection.token, 7);
    assert_eq!(reading(&connection), Vec::<u8>::new());
    assert_eq!(connection.reregister(), Interest::Readable);
    assert!(!connection.is_closed());
}

#[test]
fn ready_asks_for_the_io_of_the_state() {
    let mut connection = Connection::new(1);
    assert_eq!(connection.ready(true, false), Task::Read);
    assert_eq!(connection.ready(true, true), Task::Read);
    assert_eq!(connection.ready(false, true), Task::Mismatch);
    assert_eq!(connection.ready(false, false), Task::Mismatch);
    connection.reply(b"ok\n".to_vec());
    assert_eq!(connection.ready(false, true), Task::Write);
    assert_eq!(connection.ready(true, true), Task::Write);
    assert_eq!(connection.ready(true, false), Task::Mismatch);
    connection.write(WriteOutcome::Failed);
    assert!(connection.is_closed());
    assert_eq!(connection.ready(true, true), Task::Mismatch);
}

#[test]
fn a_request_split_over_several_reads_is_the_request_sent_whole() {
    let mut whole = Connection::new(1);
    let at_once = whole
        .read(ReadOutcome::Data(b"set alpha \nhello\n".to_vec()))
        .expect("a whole request");

    let mut split = Connection::new(2);
    assert!(split.read(ReadOutcome::Data(b"se".to_vec())).is_none());
    assert_eq!(reading(&split), b"se".to_vec());
    assert!(split.read(ReadOutcome::Data(b"t alp".to_vec())).is_none());
    assert!(split.read(ReadOutcome::WouldBlock).is_none());
    assert!(split.read(ReadOutcome::Data(b"ha \nhel".to_vec())).is_none());
    assert_eq!(reading(&split), b"set alpha \nhel".to_vec());
    assert_eq!(split.reregister(), Interest::Readable);
    let pieces = split.read(ReadOutcome::Data(b"lo\n".to_vec())).expect("a whole request");

    assert_eq!(pieces.command, Method::SET);
    assert_eq!(pieces.command, at_once.command);
    assert_eq!(pieces.key, at_once.key);
    assert_eq!(pieces.rest, at_once.rest);
    assert_eq!(pieces.body, at_once.body);
    assert_eq!(pieces.body, "hello");
    assert_eq!(reading(&split), reading(&whole));
}

#[test]
fn a_request_sent_byte_by_byte_completes_with_its_last_byte() {
    let wire = b"get alpha and the rest\n";
    let mut connection = Connection::new(1);
    for (i, byte) in wire.iter().enumerate() {
        let request = connection.read(ReadOutcome::Data(vec![*byte]));
        if i + 1 < wire.len() {
            assert!(request.is_none(), "after {} bytes", i + 1);
            assert_eq!(connection.reregister(), Interest::Readable);
        } else {
            let request = request.expect("a whole request");
            assert_eq!(request.key, "alpha");
            assert_eq!(request.rest, "and the rest");
        }
    }
}

#[test]
fn the_end_of_the_stream_closes_a_reading_connection() {
    let mut connection = Connection::new(1);
    assert!(connection.read(ReadOutcome::End).is_none());
    assert!(connection.is_closed());
    assert_eq!(connection.reregister(), Interest::Nothing);

    let mut connection = Connection::new(1);
    assert!(connection.read(ReadOutcome::Data(b"get al".to_vec())).is_none());
    assert!(connection.read(ReadOutcome::Data(Vec::new())).is_none());
    assert!(connection.is_closed());

    let mut connection = Connection::new(1);
    assert!(connection.read(ReadOutcome::Failed).is_none());
    assert!(connection.is_closed());
}

#[test]
fn a_malformed_request_closes_the_connection() {
    let mut connection = Connection::new(1);
    assert!(connection.read(ReadOutcome::Data(b"get alpha\n".to_vec())).is_none());
    assert!(connection.is_closed());

    let mut connection = Connection::new(1);
    assert!(connection.read(ReadOutcome::Data(b"del".to_vec())).is_none());
    assert!(connection.is_closed());
}

#[test]
fn a_read_that_would_block_changes_nothing() {
    let mut connection = Connection::new(1);
    assert!(connection.read(ReadOutcome::WouldBlock).is_none());
    assert_eq!(reading(&connection), Vec::<u8>::new());
    assert!(connection.read(ReadOutcome::Data(b"get ".to_vec())).is_none());
    assert!(connection.read(ReadOutcome::WouldBlock).is_none());
    assert_eq!(reading(&connection), b"get ".to_vec());
}

#[test]
fn a_response_is_written_in_as_many_steps_as_it_takes() {
    let mut connection = Connection::new(1);
    connection.reply(b"hello".to_vec());
    assert_eq!(writing(&connection), (b"hello".to_vec(), 0));
    assert_eq!(connection.state.write_buf(), Some(&b"hello"[..]));
    assert_eq!(connection.reregister(), Interest::Writable);

    connection.write(WriteOutcome::Wrote(2));
    assert_eq!(writing(&connection), (b"hello".to_vec(), 2));
    assert_eq!(connection.state.write_buf(), Some(&b"llo"[..]));

    connection.write(WriteOutcome::WouldBlock);
    assert_eq!(writing(&connection), (b"hello".to_vec(), 2));

    connection.write(WriteOutcome::Wrote(0));
    assert_eq!(writing(&connection), (b"hello".to_vec(), 2));
    assert_eq!(connection.reregister(), Interest::Writable);

    connection.write(WriteOutcome::Wrote(3));
    assert_eq!(reading(&connection), Vec::<u8>::new());
    assert_eq!(connection.reregister(), Interest::Readable);
}

#[test]
fn an_empty_response_is_done_at_the_first_write() {
    let mut connection = Connection::new(1);
    assert!(connection.read(ReadOutcome::Data(b"get k \n".to_vec())).is_some());
    connection.reply(Vec::new());
    assert_eq!(writing(&connection), (Vec::new(), 0));
    assert_eq!(connection.state.write_buf(), Some(&b""[..]));
    connection.write(WriteOutcome::Wrote(0));
    assert_eq!(reading(&connection), Vec::<u8>::new());
}

#[test]
fn bytes_received_behind_a_request_are_dropped_with_the_response() {
    let mut connection = Connection::new(1);
    let request = connection
        .read(ReadOutcome::Data(b"get a \nget b \n".to_vec()))
        .expect("a whole request");
    assert_eq!(request.key, "a");
    connection.reply(b"x".to_vec());
    connection.write(WriteOutcome::Wrote(1));
    assert_eq!(reading(&connection), Vec::<u8>::new());
}

#[test]
fn a_failed_write_closes_the_connection() {
    let mut connection = Connection::new(1);
    connection.reply(b"hello".to_vec());
    connection.write(WriteOutcome::Failed);
    assert!(connection.is_closed());
}

#[test]
fn more_bytes_written_than_offered_closes_the_connection() {
    let mut connection = Connection::new(1);
    connection.reply(b"hello".to_vec());
    connection.write(WriteOutcome::Wrote(3));
    connection.write(WriteOutcome::Wrote(3));
    assert!(connection.is_closed());

    let mut connection = Connection::new(1);
    connection.reply(b"hello".to_vec());
    connection.write(WriteOutcome::Wrote(usize::MAX));
    assert!(connection.is_closed());
}

#[test]
fn an_outcome_that_does_not_belong_to_the_state_changes_nothing() {
    let mut connection = Connection::new(1);
    assert!(connection.read(ReadOutcome::Data(b"get".to_vec())).is_none());
    connection.write(WriteOutcome::Wrote(1));
    connection.write(WriteOutcome::Failed);
    assert_eq!(reading(&connection), b"get".to_vec());

    connection.reply(b"hello".to_vec());
    assert!(connection.read(ReadOutcome::Data(b"get k \n".to_vec())).is_none());
    assert!(connection.read(ReadOutcome::End).is_none());
    assert!(connection.read(ReadOutcome::Failed).is_none());
    assert_eq!(writing(&connection), (b"hello".to_vec(), 0));

    connection.write(WriteOutcome::Failed);
    assert!(connection.is_closed());
    assert!(connection.read(ReadOutcome::Data(b"get k \n".to_vec())).is_none());
    connection.write(WriteOutcome::Wrote(1));
    assert!(connection.is_closed());
}

#[test]
fn state_accessors_answer_for_every_state() {
    let mut state = State::Reading(b"get a".to_vec());
    assert_eq!(state.read_buf(), Some(&b"get a".to_vec()));
    assert_eq!(state.write_buf(), None);
    assert!(matches!(state.parse_command(), Some(Parsed::Incomplete)));
    state.mut_read_buf().expect("a reading state").extend_from_slice(b" b\n");
    assert!(matches!(state.parse_command(), Some(Parsed::Complete(_, 8))));
    state.try_transition_to_reading();
    assert_eq!(state.read_buf(), Some(&b"get a b\n".to_vec()));

    state.transition_to_writing(b"abc".to_vec());
    assert_eq!(state.read_buf(), None);
    assert!(state.mut_read_buf().is_none());
    assert!(state.parse_command().is_none());
    assert_eq!(state.write_buf(), Some(&b"abc"[..]));
    state.try_transition_to_reading();
    assert_eq!(state.write_buf(), Some(&b"abc"[..]));

    let mut state = State::Writing(b"abc".to_vec(), 3);
    assert_eq!(state.write_buf(), Some(&b""[..]));
    state.try_transition_to_reading();
    assert_eq!(state.read_buf(), Some(&Vec::new()));

    let mut state = State::Closed;
    assert_eq!(state.read_buf(), None);
    assert_eq!(state.write_buf(), None);
    assert!(state.parse_command().is_none());
    state.try_transition_to_reading();
    assert!(matches!(state, State::Closed));
    state.transition_to_writing(b"x".to_vec());
    assert_eq!(state.write_buf(), Some(&b"x"[..]));
}

#[test]
fn advance_counts_only_what_the_response_holds() {
    let mut state = State::Writing(b"hello".to_vec(), 1);
    assert!(state.advance(0));
    assert!(matches!(&state, State::Writing(_, 1)));
    assert!(state.advance(3));
    assert!(matches!(&state, State::Writing(_, 4)));
    assert!(!state.advance(2));
    assert!(matches!(&state, State::Writing(_, 4)));
    assert!(!state.advance(usize::MAX));
    assert!(state.advance(1));
    assert!(matches!(&state, State::Writing(bytes, 5) if bytes == b"hello"));
    assert!(!state.advance(1));

    let mut state = State::Reading(b"get".to_vec());
    assert!(!state.advance(0));
    assert!(!state.advance(1));
    assert_eq!(state.read_buf(), Some(&b"get".to_vec()));

    let mut state = State::Closed;
    assert!(!state.advance(0));
    assert!(matches!(state, State::Closed));
}
