use weechat_relay::errors::{IoFailure, IoKind, WeechatError};
use weechat_relay::hdata::{HData, Record};
use weechat_relay::message::Object;
use weechat_relay::relay::{command, Action, Event, Phase, Relay, SslConfig, State};

fn parse_error(text: &str) -> WeechatError {
    WeechatError::ParseError(text.to_string())
}

fn relay() -> Relay {
    Relay::new("localhost".to_string(), 9001, "secret".to_string(), None)
}

fn end_of_stream() -> IoFailure {
    IoFailure { kind: IoKind::UnexpectedEof, detail: "failed to fill whole buffer".to_string() }
}

fn reset() -> IoFailure {
    IoFailure { kind: IoKind::Other, detail: "connection reset".to_string() }
}

fn out_of_turn() -> WeechatError {
    WeechatError::Io(IoFailure {
        kind: IoKind::Other,
        detail: "Event does not answer the action".to_string(),
    })
}

fn string_bytes(text: &str) -> Vec<u8> {
    let mut bytes = (text.len() as i32).to_be_bytes().to_vec();
    bytes.extend_from_slice(text.as_bytes());
    bytes
}

fn header_bytes(body: &[u8]) -> Vec<u8> {
    let mut bytes = ((body.len() + 5) as i32).to_be_bytes().to_vec();
    bytes.push(0);
    bytes
}

fn pong() -> Vec<u8> {
    let mut bytes = string_bytes("_pong");
    bytes.extend_from_slice(b"str");
    bytes.extend_from_slice(&string_bytes(""));
    bytes
}

fn line_added(highlight: u8, tags: &[&str]) -> Vec<u8> {
    let mut bytes = string_bytes("_buffer_line_added");
    bytes.extend_from_slice(b"hda");
    bytes.extend_from_slice(&string_bytes("line_data"));
    bytes.extend_from_slice(&string_bytes("highlight:chr,tags_array:arr,message:str"));
    bytes.extend_from_slice(&1i32.to_be_bytes());
    bytes.extend_from_slice(&[3, b'1', b'a', b'f']);
    bytes.push(highlight);
    bytes.extend_from_slice(b"str");
    bytes.extend_from_slice(&(tags.len() as i32).to_be_bytes());
    for tag in tags {
        bytes.extend_from_slice(&string_bytes(tag));
    }
    bytes.extend_from_slice(&string_bytes("hello there"));
    bytes
}

fn record(highlight: char, tags: &[&str]) -> Record {
    let mut record = Record::new();
    record.insert("highlight".to_string(), Object::Chr(highlight));
    record.insert(
        "tags_array".to_string(),
        Object::Arr(tags.iter().map(|t| Object::Str(Some(t.to_string()))).collect()),
    );
    record
}

/// Takes a session up to the point where it reads the header of a message.
fn streaming(relay: &Relay) -> State {
    let (state, _) = relay.begin();
    let (state, _) = relay.step(state, Event::Connected);
    let (state, _) = relay.step(state, Event::Sent);
    let (state, _) = relay.step(state, Event::Sent);
    let (state, _) = relay.step(state, Event::Received(header_bytes(&pong())));
    let (state, _) = relay.step(state, Event::Received(pong()));
    let (state, _) = relay.step(state, Event::Sent);
    assert_eq!(state, State::Header);
    state
}

/// Hands one whole message to a session that reads a header.
fn deliver(relay: &Relay, state: State, body: Vec<u8>) -> (State, Action) {
    let (state, action) = relay.step(state, Event::Received(header_bytes(&body)));
    assert_eq!(state, State::Body(body.len()));
    assert!(matches!(action, Action::Receive(n) if n == body.len()));
    relay.step(state, Event::Received(body))
}

#[test]
fn command_ends_with_one_newline() {
    assert_eq!(command("ping".to_string()), "ping\n");
    assert_eq!(command("ping\n".to_string()), "ping\n");
    assert_eq!(command(String::new()), "\n");
    assert_eq!(command("\n".to_string()), "\n");
    assert_eq!(command("a\nb".to_string()), "a\nb\n");
    assert_eq!(command("sync * buffer".to_string()), "sync * buffer\n");
    assert_eq!(command("naïve é".to_string()), "naïve é\n");
}

#[test]
fn init_command_carries_the_password() {
    assert_eq!(relay().init_command(), "init password=secret,compression=off\n");
    let relay = Relay::new("h".to_string(), 1, "pä ss,=".to_string(), None);
    assert_eq!(relay.init_command(), "init password=pä ss,=,compression=off\n");
}

#[test]
fn relay_keeps_its_configuration() {
    let relay = Relay::new(
        "example.org".to_string(),
        9001,
        "pw".to_string(),
        Some(SslConfig::new(true, Some("/etc/ssl/certs/ca-certificates.crt".to_string()))),
    );
    assert_eq!(relay.host(), "example.org");
    assert_eq!(relay.port(), 9001);
    let ssl = relay.ssl().unwrap();
    assert!(ssl.verify());
    assert_eq!(ssl.ca_cert_path(), Some("/etc/ssl/certs/ca-certificates.crt"));
    let plain = Relay::new("h".to_string(), -1, String::new(), None);
    assert!(plain.ssl().is_none());
    assert_eq!(plain.port(), -1);
    let ssl = SslConfig::new(false, None);
    assert!(!ssl.verify());
    assert_eq!(ssl.ca_cert_path(), None);
}

#[test]
fn session_runs_from_connect_to_streaming() {
    let relay = relay();
    let (state, action) = relay.begin();
    assert_eq!(state, State::Disconnected);
    assert_eq!(state.phase(), Phase::Disconnected);
    assert!(matches!(action, Action::Connect));

    let (state, action) = relay.step(state, Event::Connected);
    assert_eq!(state, State::Connected);
    assert_eq!(state.phase(), Phase::Connected);
    assert!(matches!(action, Action::Send(c) if c == "init password=secret,compression=off\n"));

    let (state, action) = relay.step(state, Event::Sent);
    assert_eq!(state, State::Pinging);
    assert_eq!(state.phase(), Phase::Authenticating);
    assert!(matches!(action, Action::Send(c) if c == "ping\n"));

    let (state, action) = relay.step(state, Event::Sent);
    assert_eq!(state, State::ProbeHeader);
    assert_eq!(state.phase(), Phase::Authenticating);
    assert!(matches!(action, Action::Receive(5)));

    let reply = pong();
    let (state, action) = relay.step(state, Event::Received(header_bytes(&reply)));
    assert_eq!(state, State::ProbeBody(reply.len()));
    assert_eq!(state.phase(), Phase::Authenticating);
    assert!(matches!(action, Action::Receive(n) if n == reply.len()));

    let (state, action) = relay.step(state, Event::Received(reply));
    assert_eq!(state, State::Subscribing);
    assert_eq!(state.phase(), Phase::Streaming);
    assert!(matches!(action, Action::Send(c) if c == "sync * buffer\n"));

    let (state, action) = relay.step(state, Event::Sent);
    assert_eq!(state, State::Header);
    assert_eq!(state.phase(), Phase::Streaming);
    assert!(matches!(action, Action::Receive(5)));
}

#[test]
fn connect_failure_is_an_io_error_and_nothing_is_closed() {
    let relay = relay();
    let (state, _) = relay.begin();
    let (state, action) = relay.step(state, Event::ConnectFailed(reset()));
    assert_eq!(state, State::Closed);
    assert_eq!(state.phase(), Phase::Closed);
    assert!(matches!(action, Action::Fail(e) if e == WeechatError::Io(reset())));
}

#[test]
fn init_that_cannot_be_written_ends_the_session() {
    let relay = relay();
    let (state, _) = relay.begin();
    let (state, _) = relay.step(state, Event::Connected);
    let (state, action) = relay.step(state, Event::SendFailed(reset()));
    assert_eq!(state, State::Closed);
    assert!(matches!(action, Action::Close(q, e) if q == "quit\n" && e == WeechatError::Io(reset())));
}

#[test]
fn ping_that_cannot_be_written_is_passed_over() {
    let relay = relay();
    let (state, _) = relay.begin();
    let (state, _) = relay.step(state, Event::Connected);
    let (state, _) = relay.step(state, Event::Sent);
    let (state, action) = relay.step(state, Event::SendFailed(reset()));
    assert_eq!(state, State::ProbeHeader);
    assert!(matches!(action, Action::Receive(5)));
}

#[test]
fn connection_closed_after_init_is_a_bad_password() {
    let relay = relay();
    let (state, _) = relay.begin();
    let (state, _) = relay.step(state, Event::Connected);
    let (state, _) = relay.step(state, Event::Sent);
    let (state, _) = relay.step(state, Event::Sent);
    let (state, action) = relay.step(state, Event::ReceiveFailed(end_of_stream()));
    assert_eq!(state, State::Closed);
    assert!(matches!(action, Action::Close(q, e) if q == "quit\n" && e == WeechatError::BadPassword));
}

#[test]
fn connection_closed_within_the_reply_to_the_probe_is_a_bad_password() {
    let relay = relay();
    let (state, _) = relay.begin();
    let (state, _) = relay.step(state, Event::Connected);
    let (state, _) = relay.step(state, Event::Sent);
    let (state, _) = relay.step(state, Event::Sent);
    let (state, _) = relay.step(state, Event::Received(header_bytes(&pong())));
    let (state, action) = relay.step(state, Event::ReceiveFailed(end_of_stream()));
    assert_eq!(state, State::Closed);
    assert!(matches!(action, Action::Close(_, WeechatError::BadPassword)));
}

#[test]
fn other_failure_during_the_probe_is_itself() {
    let relay = relay();
    let (state, _) = relay.begin();
    let (state, _) = relay.step(state, Event::Connected);
    let (state, _) = relay.step(state, Event::Sent);
    let (state, _) = relay.step(state, Event::Sent);
    let (state, action) = relay.step(state, Event::ReceiveFailed(reset()));
    assert_eq!(state, State::Closed);
    assert!(matches!(action, Action::Close(_, e) if e == WeechatError::Io(reset())));
}

#[test]
fn reply_to_the_probe_that_does_not_decode_is_a_parse_error() {
    let relay = relay();
    let (state, _) = relay.begin();
    let (state, _) = relay.step(state, Event::Connected);
    let (state, _) = relay.step(state, Event::Sent);
    let (probe, _) = relay.step(state, Event::Sent);
    let (state, action) = relay.step(probe, Event::Received(vec![0, 0, 0, 9, 3]));
    assert_eq!(state, State::Closed);
    assert!(matches!(action, Action::Close(_, e) if e == parse_error("Bad compression byte")));
    let (state, _) = relay.step(probe, Event::Received(vec![0, 0, 0, 6, 0]));
    assert_eq!(state, State::ProbeBody(1));
    let (state, action) = relay.step(state, Event::Received(vec![7]));
    assert_eq!(state, State::Closed);
    assert!(
        matches!(action, Action::Close(_, e) if e == parse_error("Not enough bytes to parse string"))
    );
}

#[test]
fn any_reply_to_the_probe_that_decodes_is_accepted() {
    let relay = relay();
    let (state, _) = relay.begin();
    let (state, _) = relay.step(state, Event::Connected);
    let (state, _) = relay.step(state, Event::Sent);
    let (state, _) = relay.step(state, Event::Sent);
    let reply = line_added(1, &[]);
    let (state, _) = relay.step(state, Event::Received(header_bytes(&reply)));
    let (state, action) = relay.step(state, Event::Received(reply));
    assert_eq!(state, State::Subscribing);
    assert!(matches!(action, Action::Send(c) if c == "sync * buffer\n"));
}

#[test]
fn sync_that_cannot_be_written_ends_the_session() {
    let relay = relay();
    let (state, _) = relay.begin();
    let (state, _) = relay.step(state, Event::Connected);
    let (state, _) = relay.step(state, Event::Sent);
    let (state, _) = relay.step(state, Event::Sent);
    let (state, _) = relay.step(state, Event::Received(header_bytes(&pong())));
    let (state, _) = relay.step(state, Event::Received(pong()));
    let (state, action) = relay.step(state, Event::SendFailed(reset()));
    assert_eq!(state, State::Closed);
    assert!(matches!(action, Action::Close(_, e) if e == WeechatError::Io(reset())));
}

#[test]
fn end_of_stream_while_streaming_is_an_io_error() {
    let relay = relay();
    let state = streaming(&relay);
    let (closed, action) = relay.step(state, Event::ReceiveFailed(end_of_stream()));
    assert_eq!(closed, State::Closed);
    assert!(
        matches!(action, Action::Close(q, e) if q == "quit\n" && e == WeechatError::Io(end_of_stream()))
    );
    let (state, _) = relay.step(state, Event::Received(header_bytes(&pong())));
    let (closed, action) = relay.step(state, Event::ReceiveFailed(end_of_stream()));
    assert_eq!(closed, State::Closed);
    assert!(matches!(action, Action::Close(_, e) if e == WeechatError::Io(end_of_stream())));
}

#[test]
fn highlighted_line_is_worth_a_notification() {
    let relay = relay();
    let state = streaming(&relay);
    let (state, action) = deliver(&relay, state, line_added(1, &[]));
    assert_eq!(state, State::Notifying);
    assert_eq!(state.phase(), Phase::Streaming);
    assert!(matches!(action, Action::Notify));
    let (state, action) = relay.step(state, Event::Notified);
    assert_eq!(state, State::Header);
    assert!(matches!(action, Action::Receive(5)));
}

#[test]
fn private_line_is_worth_a_notification() {
    let relay = relay();
    let state = streaming(&relay);
    let (state, action) = deliver(&relay, state, line_added(0, &["irc_privmsg", "notify_private"]));
    assert_eq!(state, State::Notifying);
    assert!(matches!(action, Action::Notify));
}

#[test]
fn ordinary_line_is_read_past() {
    let relay = relay();
    let state = streaming(&relay);
    let (state, action) = deliver(&relay, state, line_added(0, &["notify_message"]));
    assert_eq!(state, State::Header);
    assert!(matches!(action, Action::Receive(5)));
    let (state, action) = deliver(&relay, state, line_added(2, &[]));
    assert_eq!(state, State::Header);
    assert!(matches!(action, Action::Receive(5)));
}

#[test]
fn messages_with_other_identifiers_are_passed_over() {
    let relay = relay();
    let state = streaming(&relay);
    let (state, action) = deliver(&relay, state, pong());
    assert_eq!(state, State::Header);
    assert!(matches!(action, Action::Receive(5)));
    let mut other = string_bytes("_buffer_opened");
    other.extend_from_slice(b"hda");
    other.extend_from_slice(&string_bytes("buffer"));
    other.extend_from_slice(&string_bytes("number:int"));
    other.extend_from_slice(&0i32.to_be_bytes());
    let (state, action) = deliver(&relay, state, other);
    assert_eq!(state, State::Header);
    assert!(matches!(action, Action::Receive(5)));
}

#[test]
fn line_added_that_is_not_an_hdata_ends_the_session() {
    let relay = relay();
    let state = streaming(&relay);
    let mut body = string_bytes("_buffer_line_added");
    body.extend_from_slice(b"str");
    body.extend_from_slice(&string_bytes("x"));
    let (state, action) = deliver(&relay, state, body);
    assert_eq!(state, State::Closed);
    assert!(matches!(action, Action::Close(_, e) if e == parse_error("Message is not an hdata")));
}

#[test]
fn message_that_does_not_decode_ends_the_session() {
    let relay = relay();
    let state = streaming(&relay);
    let (closed, action) = relay.step(state, Event::Received(vec![0, 0, 0, 3, 0]));
    assert_eq!(closed, State::Closed);
    assert!(
        matches!(action, Action::Close(q, e) if q == "quit\n" && e == parse_error("Message is shorter than its header"))
    );
    let (state, action) = deliver(&relay, state, vec![0, 0, 0, 1, b'x', b'f', b'o', b'o']);
    assert_eq!(state, State::Closed);
    assert!(matches!(action, Action::Close(_, e) if e == parse_error("Unknown message type")));
}

#[test]
fn event_out_of_turn_ends_the_session() {
    let relay = relay();
    let (start, _) = relay.begin();
    let (state, action) = relay.step(start, Event::Sent);
    assert_eq!(state, State::Closed);
    assert!(matches!(action, Action::Fail(e) if e == out_of_turn()));
    let (connected, _) = relay.step(start, Event::Connected);
    let (state, action) = relay.step(connected, Event::Received(vec![1]));
    assert_eq!(state, State::Closed);
    assert!(matches!(action, Action::Close(q, e) if q == "quit\n" && e == out_of_turn()));
    let streaming = streaming(&relay);
    let (state, action) = relay.step(streaming, Event::Notified);
    assert_eq!(state, State::Closed);
    assert!(matches!(action, Action::Close(_, e) if e == out_of_turn()));
}

#[test]
fn closed_session_stays_closed() {
    let relay = relay();
    for event in [
        Event::Connected,
        Event::Sent,
        Event::Received(pong()),
        Event::ReceiveFailed(end_of_stream()),
        Event::Notified,
    ] {
        let (state, action) = relay.step(State::Closed, event);
        assert_eq!(state, State::Closed);
        assert!(matches!(action, Action::Fail(e) if e == out_of_turn()));
    }
}

#[test]
fn highlight_counts_even_without_tags() {
    let hdata = HData { data: vec![record('\u{1}', &[])] };
    assert_eq!(relay().buffer_line_added(&hdata), Ok(true));
}

#[test]
fn private_tag_counts_and_message_tag_does_not() {
    let hdata = HData { data: vec![record('\0', &["notify_private"])] };
    assert_eq!(relay().buffer_line_added(&hdata), Ok(true));
    let hdata = HData { data: vec![record('\0', &["notify_message"])] };
    assert_eq!(relay().buffer_line_added(&hdata), Ok(false));
    let hdata = HData { data: vec![record('\0', &["a", "b", "notify_private", "c"])] };
    assert_eq!(relay().buffer_line_added(&hdata), Ok(true));
    let hdata = HData { data: vec![record('\0', &["notify_privat", "Notify_private", ""])] };
    assert_eq!(relay().buffer_line_added(&hdata), Ok(false));
}

#[test]
fn any_record_may_be_the_one_that_counts() {
    let hdata = HData { data: vec![] };
    assert_eq!(relay().buffer_line_added(&hdata), Ok(false));
    let hdata = HData {
        data: vec![record('\0', &[]), record('\0', &["notify_message"]), record('\u{1}', &[])],
    };
    assert_eq!(relay().buffer_line_added(&hdata), Ok(true));
    let hdata = HData {
        data: vec![record('\0', &["notify_private"]), record('\0', &[]), record('\u{2}', &[])],
    };
    assert_eq!(relay().buffer_line_added(&hdata), Ok(true));
    let hdata = HData { data: vec![record('\0', &[]), record('1', &["x"])] };
    assert_eq!(relay().buffer_line_added(&hdata), Ok(false));
}

#[test]
fn record_that_cannot_be_read_is_a_parse_error() {
    let relay = relay();
    let hdata = HData { data: vec![Record::new()] };
    assert_eq!(relay.buffer_line_added(&hdata), Err(parse_error("Record has no highlight")));

    let mut no_tags = Record::new();
    no_tags.insert("highlight".to_string(), Object::Chr('\0'));
    let hdata = HData { data: vec![no_tags] };
    assert_eq!(relay.buffer_line_added(&hdata), Err(parse_error("Record has no tags_array")));

    let mut wrong = Record::new();
    wrong.insert("highlight".to_string(), Object::Int(1));
    let hdata = HData { data: vec![wrong] };
    assert_eq!(relay.buffer_line_added(&hdata), Err(parse_error("Item is not a character")));

    let mut wrong = Record::new();
    wrong.insert("highlight".to_string(), Object::Chr('\0'));
    wrong.insert("tags_array".to_string(), Object::Str(None));
    let hdata = HData { data: vec![wrong] };
    assert_eq!(relay.buffer_line_added(&hdata), Err(parse_error("Item is not an array")));

    let mut wrong = Record::new();
    wrong.insert("highlight".to_string(), Object::Chr('\0'));
    wrong.insert("tags_array".to_string(), Object::Arr(vec![Object::Str(None)]));
    let hdata = HData { data: vec![wrong] };
    assert_eq!(relay.buffer_line_added(&hdata), Err(parse_error("String is null")));

    let mut wrong = Record::new();
    wrong.insert("highlight".to_string(), Object::Chr('\0'));
    wrong.insert("tags_array".to_string(), Object::Arr(vec![Object::Int(3)]));
    let hdata = HData { data: vec![wrong] };
    assert_eq!(relay.buffer_line_added(&hdata), Err(parse_error("Item is not a string")));
}

#[test]
fn records_are_read_up_to_the_one_that_is_highlighted() {
    let relay = relay();
    // What follows a highlighted record is not looked at.
    let hdata = HData { data: vec![record('\u{1}', &[]), Record::new()] };
    assert_eq!(relay.buffer_line_added(&hdata), Ok(true));
    // The tags of a highlighted record are not looked at.
    let mut highlighted = Record::new();
    highlighted.insert("highlight".to_string(), Object::Chr('\u{1}'));
    let hdata = HData { data: vec![highlighted] };
    assert_eq!(relay.buffer_line_added(&hdata), Ok(true));
    // What follows a private record is.
    let hdata = HData { data: vec![record('\0', &["notify_private"]), Record::new()] };
    assert_eq!(relay.buffer_line_added(&hdata), Err(parse_error("Record has no highlight")));
    // Tags behind the one that counts are not looked at.
    let mut tagged = Record::new();
    tagged.insert("highlight".to_string(), Object::Chr('\0'));
    tagged.insert(
        "tags_array".to_string(),
        Object::Arr(vec![Object::Str(Some("notify_private".to_string())), Object::Int(1)]),
    );
    let hdata = HData { data: vec![tagged] };
    assert_eq!(relay.buffer_line_added(&hdata), Ok(true));
}

#[test]
fn errors_describe_themselves() {
    let io = WeechatError::Io(reset());
    assert_eq!(io.to_string(), "connection reset");
    assert_eq!(io.description(), "connection reset");
    assert_eq!(WeechatError::BadPassword.to_string(), "Invalid password");
    assert_eq!(WeechatError::BadPassword.description(), "Invalid username or password");
    let parse = parse_error("Unknown data type");
    assert_eq!(parse.to_string(), "Parse error: Unknown data type");
    assert_eq!(parse.description(), "Message parse error");
    assert_eq!(WeechatError::parse("x"), parse_error("x"));
    assert_eq!(WeechatError::from(reset()), WeechatError::Io(reset()));
}
