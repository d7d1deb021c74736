//! The relay session: what to do next, given what has happened.
//!
//! The session performs no I/O. Whoever owns the transport carries out the
//! [`Action`] that the session hands out and reports what came of it as an
//! [`Event`], until the session hands out [`Action::Close`] or
//! [`Action::Fail`].

use vstd::prelude::*;
use crate::errors::{malformed, Fault, IoFailure, IoKind, WeechatError};
use crate::hdata::{Fields, HData};
use crate::message::{
    header, lemma_header_fault, lemma_message_fault, lemma_view_arr, message, values, Header,
    Message, Object, Payload, HEADER_LENGTH,
};
use crate::model::Value;
use crate::text::text_eq;
use crate::wire::fails_as_parse;

verus! {

/// Settings for TLS on the connection to the relay.
#[derive(Debug)]
pub struct SslConfig {
    /// Whether the certificate of the peer is verified.
    verify: bool,
    /// Path to a file of CA certificates, where the default ones do not do.
    ca_cert_path: Option<String>,
}

impl SslConfig {
    pub fn new(verify: bool, ca_cert_path: Option<String>) -> (config: SslConfig)
        ensures
            config.verifies() == verify,
            config.ca_certificates() == ca_cert_path,
    {
        SslConfig { verify, ca_cert_path }
    }

    /// Whether the certificate of the peer is verified.
    pub closed spec fn verifies(&self) -> bool {
        self.verify
    }

    /// The configured path to a file of CA certificates.
    pub closed spec fn ca_certificates(&self) -> Option<String> {
        self.ca_cert_path
    }

    /// Whether the certificate of the peer is to be verified.
    pub fn verify(&self) -> (r: bool)
        ensures
            r == self.verifies(),
    {
        self.verify
    }

    /// The path to a file of CA certificates, if one is configured.
    pub fn ca_cert_path(&self) -> (r: Option<&str>)
        ensures
            match r {
                Some(path) => self.ca_certificates() matches Some(p) && p@ == path@,
                None => self.ca_certificates() is None,
            },
    {
        match &self.ca_cert_path {
            Some(path) => Some(path.as_str()),
            None => None,
        }
    }
}

/// Holds relay connection information.
#[derive(Debug)]
pub struct Relay {
    host: String,
    port: i32,
    password: String,
    ssl: Option<SslConfig>,
}

/// The states of a session. Each but the last waits on one action.
#[derive(Debug, Clone, Copy, PartialEq, Eq)]
pub enum State {
    /// Nothing has happened; the connection is being opened.
    Disconnected,
    /// The transport is open; the `init` command is being written.
    Connected,
    /// `init` is written; the `ping` that probes for a rejection is being written.
    Pinging,
    /// The header of the reply to the probe is being read.
    ProbeHeader,
    /// The body of the reply to the probe, of the given length, is being read.
    ProbeBody(usize),
    /// The relay accepted the password; the `sync` command is being written.
    Subscribing,
    /// The header of the next message is being read.
    Header,
    /// The body of the next message, of the given length, is being read.
    Body(usize),
    /// A line worth a notification came; the notification is being handed off.
    Notifying,
    /// The session is over.
    Closed,
}

/// The stages of a session.
#[derive(Debug, Clone, Copy, PartialEq, Eq)]
pub enum Phase {
    Disconnected,
    Connected,
    Authenticating,
    Streaming,
    Closed,
}

impl State {
    /// The stage that a state belongs to.
    pub open spec fn stage(self) -> Phase {
        match self {
            State::Disconnected => Phase::Disconnected,
            State::Connected => Phase::Connected,
            State::Pinging | State::ProbeHeader | State::ProbeBody(_) => Phase::Authenticating,
            State::Subscribing | State::Header | State::Body(_) | State::Notifying => {
                Phase::Streaming
            },
            State::Closed => Phase::Closed,
        }
    }

    /// The stage that this state belongs to.
    pub fn phase(&self) -> (p: Phase)
        ensures
            p == self.stage(),
    {
        match self {
            State::Disconnected => Phase::Disconnected,
            State::Connected => Phase::Connected,
            State::Pinging | State::ProbeHeader | State::ProbeBody(_) => Phase::Authenticating,
            State::Subscribing | State::Header | State::Body(_) | State::Notifying => {
                Phase::Streaming
            },
            State::Closed => Phase::Closed,
        }
    }
}

/// What came of the action that the session asked for.
#[derive(Debug)]
pub enum Event {
    /// The transport is open, with TLS negotiated if it was asked for.
    Connected,
    /// The transport could not be opened.
    ConnectFailed(IoFailure),
    /// The command was written in full.
    Sent,
    /// The command could not be written.
    SendFailed(IoFailure),
    /// The bytes that were asked for, all of them.
    Received(Vec<u8>),
    /// The bytes that were asked for could not be read.
    ReceiveFailed(IoFailure),
    /// The notification was handed off.
    Notified,
}

/// What the session asks for next.
#[derive(Debug)]
pub enum Action {
    /// Open the transport to the host and port of the relay.
    Connect,
    /// Write this command.
    Send(String),
    /// Read exactly this many bytes.
    Receive(usize),
    /// Hand a notification to whatever signals the user, and do not wait for it.
    Notify,
    /// The session is over. Write this last command, flush, and shut the
    /// transport down, ignoring any failure; then report the error.
    Close(String, WeechatError),
    /// The session is over and there is no transport to close. Report the error.
    Fail(WeechatError),
}

/// The mathematical content of an [`Event`].
pub enum Occurrence {
    Connected,
    ConnectFailed(IoKind, Seq<char>),
    Sent,
    SendFailed(IoKind, Seq<char>),
    Received(Seq<u8>),
    ReceiveFailed(IoKind, Seq<char>),
    Notified,
}

/// The mathematical content of an [`Action`].
pub enum Deed {
    Connect,
    Send(Seq<char>),
    Receive(nat),
    Notify,
    Close(Seq<char>, Fault),
    Fail(Fault),
}

impl View for Event {
    type V = Occurrence;

    open spec fn view(&self) -> Occurrence {
        match self {
            Event::Connected => Occurrence::Connected,
            Event::ConnectFailed(cause) => Occurrence::ConnectFailed(cause.kind, cause.detail@),
            Event::Sent => Occurrence::Sent,
            Event::SendFailed(cause) => Occurrence::SendFailed(cause.kind, cause.detail@),
            Event::Received(bytes) => Occurrence::Received(bytes@),
            Event::ReceiveFailed(cause) => Occurrence::ReceiveFailed(cause.kind, cause.detail@),
            Event::Notified => Occurrence::Notified,
        }
    }
}

impl View for Action {
    type V = Deed;

    open spec fn view(&self) -> Deed {
        match self {
            Action::Connect => Deed::Connect,
            Action::Send(command) => Deed::Send(command@),
            Action::Receive(n) => Deed::Receive(*n as nat),
            Action::Notify => Deed::Notify,
            Action::Close(farewell, cause) => Deed::Close(farewell@, cause@),
            Action::Fail(cause) => Deed::Fail(cause@),
        }
    }
}

/// A command as it goes over the wire: ended by a newline, which is added
/// where the command does not bring one.
pub open spec fn line(command: Seq<char>) -> Seq<char> {
    if command.len() > 0 && command.last() == '\n' {
        command
    } else {
        command.push('\n')
    }
}

/// The command that opens a session with `password`.
pub open spec fn init_line(password: Seq<char>) -> Seq<char> {
    line("init password="@ + password + ",compression=off"@)
}

/// The command that asks the relay for a sign of life.
pub open spec fn ping_line() -> Seq<char> {
    line("ping"@)
}

/// The command that subscribes to what happens in the buffers.
pub open spec fn sync_line() -> Seq<char> {
    line("sync * buffer"@)
}

/// The command that ends a session.
pub open spec fn quit_line() -> Seq<char> {
    line("quit"@)
}

/// The identifier of the messages that announce a new line in a buffer.
pub open spec fn line_added() -> Seq<char> {
    "_buffer_line_added"@
}

/// The tag that marks a line of a private conversation.
pub open spec fn private_tag() -> Seq<char> {
    "notify_private"@
}

/// Whether one of the tags says that the line is private. The tags are
/// looked at in order, up to the first that says so; each one looked at
/// must be a string that is not null.
pub open spec fn tagged_private(tags: Seq<Value>) -> Result<bool, Fault>
    decreases tags.len(),
{
    if tags.len() == 0 {
        Ok(false)
    } else {
        match tags[0] {
            Value::Str(Some(tag)) => if tag == private_tag() {
                Ok(true)
            } else {
                tagged_private(tags.drop_first())
            },
            Value::Str(None) => Err(malformed("String is null")),
            _ => Err(malformed("Item is not a string")),
        }
    }
}

/// Whether the record is of a highlighted line: its field `highlight`, a
/// char, is 1.
pub open spec fn highlighted(fields: Fields) -> Result<bool, Fault> {
    if !fields.contains_key("highlight"@) {
        Err(malformed("Record has no highlight"))
    } else {
        match fields["highlight"@] {
            Value::Chr(c) => Ok(c == '\x01'),
            _ => Err(malformed("Item is not a character")),
        }
    }
}

/// Whether the record is of a private line: its field `tags_array`, an
/// array of strings, holds the tag that says so.
pub open spec fn private(fields: Fields) -> Result<bool, Fault> {
    if !fields.contains_key("tags_array"@) {
        Err(malformed("Record has no tags_array"))
    } else {
        match fields["tags_array"@] {
            Value::Arr(tags) => tagged_private(tags),
            _ => Err(malformed("Item is not an array")),
        }
    }
}

/// Whether the records are worth a notification, given whether an earlier
/// one was. The records are looked at in order, up to the first that is
/// highlighted; each one looked at must have the fields that are read.
pub open spec fn worth_notice(records: Seq<Fields>, found: bool) -> Result<bool, Fault>
    decreases records.len(),
{
    if records.len() == 0 {
        Ok(found)
    } else {
        match highlighted(records[0]) {
            Err(e) => Err(e),
            Ok(true) => Ok(true),
            Ok(false) => match private(records[0]) {
                Err(e) => Err(e),
                Ok(tagged) => worth_notice(records.drop_first(), found || tagged),
            },
        }
    }
}

/// The end of a session whose transport is open: the last command, and the
/// error to report.
pub open spec fn closing(cause: Fault) -> (State, Deed) {
    (State::Closed, Deed::Close(quit_line(), cause))
}

/// The fault of an event that does not answer the action that was asked for.
pub open spec fn out_of_turn() -> Fault {
    Fault::Io(IoKind::Other, "Event does not answer the action"@)
}

/// What a failed read during the probe means: the relay closes the
/// connection on a bad password and says nothing, so the end of the stream
/// stands for it. Any other failure is itself.
pub open spec fn probe_failure(kind: IoKind, detail: Seq<char>) -> Fault {
    match kind {
        IoKind::UnexpectedEof => Fault::BadPassword,
        IoKind::Other => Fault::Io(kind, detail),
    }
}

/// What the session does with a message that arrived while streaming.
pub open spec fn dispatch(identifier: Seq<char>, payload: Payload) -> (State, Deed) {
    if identifier == line_added() {
        match payload {
            Payload::HData(records) => match worth_notice(records, false) {
                Err(e) => closing(e),
                Ok(true) => (State::Notifying, Deed::Notify),
                Ok(false) => (State::Header, Deed::Receive(HEADER_LENGTH as nat)),
            },
            Payload::Str(_) => closing(malformed("Message is not an hdata")),
        }
    } else {
        (State::Header, Deed::Receive(HEADER_LENGTH as nat))
    }
}

/// The state that follows `state` on `event`, and the action to take, for a
/// relay with the password `password`.
pub open spec fn next(password: Seq<char>, state: State, event: Occurrence) -> (State, Deed) {
    match state {
        State::Disconnected => match event {
            Occurrence::Connected => (State::Connected, Deed::Send(init_line(password))),
            Occurrence::ConnectFailed(kind, detail) => (
                State::Closed,
                Deed::Fail(Fault::Io(kind, detail)),
            ),
            _ => (State::Closed, Deed::Fail(out_of_turn())),
        },
        State::Connected => match event {
            Occurrence::Sent => (State::Pinging, Deed::Send(ping_line())),
            Occurrence::SendFailed(kind, detail) => closing(Fault::Io(kind, detail)),
            _ => closing(out_of_turn()),
        },
        State::Pinging => match event {
            Occurrence::Sent | Occurrence::SendFailed(_, _) => (
                State::ProbeHeader,
                Deed::Receive(HEADER_LENGTH as nat),
            ),
            _ => closing(out_of_turn()),
        },
        State::ProbeHeader => match event {
            Occurrence::Received(bytes) => match header(bytes) {
                Ok((length, _)) => (State::ProbeBody(length as usize), Deed::Receive(length)),
                Err(e) => closing(e),
            },
            Occurrence::ReceiveFailed(kind, detail) => closing(probe_failure(kind, detail)),
            _ => closing(out_of_turn()),
        },
        State::ProbeBody(_) => match event {
            Occurrence::Received(bytes) => match message(bytes) {
                Ok(_) => (State::Subscribing, Deed::Send(sync_line())),
                Err(e) => closing(e),
            },
            Occurrence::ReceiveFailed(kind, detail) => closing(probe_failure(kind, detail)),
            _ => closing(out_of_turn()),
        },
        State::Subscribing => match event {
            Occurrence::Sent => (State::Header, Deed::Receive(HEADER_LENGTH as nat)),
            Occurrence::SendFailed(kind, detail) => closing(Fault::Io(kind, detail)),
            _ => closing(out_of_turn()),
        },
        State::Header => match event {
            Occurrence::Received(bytes) => match header(bytes) {
                Ok((length, _)) => (State::Body(length as usize), Deed::Receive(length)),
                Err(e) => closing(e),
            },
            Occurrence::ReceiveFailed(kind, detail) => closing(Fault::Io(kind, detail)),
            _ => closing(out_of_turn()),
        },
        State::Body(_) => match event {
            Occurrence::Received(bytes) => match message(bytes) {
                Ok((identifier, payload)) => dispatch(identifier, payload),
                Err(e) => closing(e),
            },
            Occurrence::ReceiveFailed(kind, detail) => closing(Fault::Io(kind, detail)),
            _ => closing(out_of_turn()),
        },
        State::Notifying => match event {
            Occurrence::Notified => (State::Header, Deed::Receive(HEADER_LENGTH as nat)),
            _ => closing(out_of_turn()),
        },
        State::Closed => (State::Closed, Deed::Fail(out_of_turn())),
    }
}

/// What the check of a record returned, as mathematics.
pub open spec fn verdict(r: Result<bool, WeechatError>) -> Result<bool, Fault> {
    match r {
        Ok(b) => Ok(b),
        Err(e) => Err(e@),
    }
}

/// Ends a command with a newline, unless it ends with one.
pub fn command(cmd_str: String) -> (wire: String)
    ensures
        wire@ == line(cmd_str@),
{
    proof {
        reveal_strlit("\n");
    }
    let n = cmd_str.as_str().unicode_len();
    if n > 0 && cmd_str.as_str().get_char(n - 1) == '\n' {
        cmd_str
    } else {
        let wire = cmd_str.concat("\n");
        assert(wire@ =~= line(cmd_str@));
        wire
    }
}

/// Whether one of the tags says that the line is private.
fn tagged_private_in(tags: &[Object]) -> (r: Result<bool, WeechatError>)
    ensures
        verdict(r) == tagged_private(values(tags@)),
{
    let ghost all = values(tags@);
    let mut i: usize = 0;
    assert(all.skip(0) =~= all);
    while i < tags.len()
        invariant
            i <= tags.len(),
            all == values(tags@),
            tagged_private(all) == tagged_private(all.skip(i as int)),
        decreases tags.len() - i,
    {
        assert(all.skip(i as int)[0] == tags@[i as int]@);
        assert(all.skip(i as int).drop_first() =~= all.skip(i + 1));
        let tag = match tags[i].as_not_null_str() {
            Ok(tag) => tag,
            Err(e) => {
                return Err(e);
            },
        };
        if text_eq(tag, "notify_private") {
            return Ok(true);
        }
        i += 1;
    }
    Ok(false)
}

impl Relay {
    pub fn new(host: String, port: i32, password: String, relay_ssl: Option<SslConfig>) -> (relay:
        Relay)
        ensures
            relay.host_name() == host@,
            relay.port_number() == port,
            relay.secret() == password@,
            relay.tls() == relay_ssl,
    {
        Relay { host, port, password, ssl: relay_ssl }
    }

    /// The configured name of the host.
    pub closed spec fn host_name(&self) -> Seq<char> {
        self.host@
    }

    /// The configured port.
    pub closed spec fn port_number(&self) -> i32 {
        self.port
    }

    /// The configured password.
    pub closed spec fn secret(&self) -> Seq<char> {
        self.password@
    }

    /// The configured settings for TLS.
    pub closed spec fn tls(&self) -> Option<SslConfig> {
        self.ssl
    }

    /// The name of the host to connect to.
    pub fn host(&self) -> (r: &str)
        ensures
            r@ == self.host_name(),
    {
        self.host.as_str()
    }

    /// The port to connect to.
    pub fn port(&self) -> (r: i32)
        ensures
            r == self.port_number(),
    {
        self.port
    }

    /// The settings for TLS, where the connection is to use it.
    pub fn ssl(&self) -> (r: Option<&SslConfig>)
        ensures
            match r {
                Some(config) => self.tls() == Some(*config),
                None => self.tls() is None,
            },
    {
        match &self.ssl {
            Some(config) => Some(config),
            None => None,
        }
    }

    /// The command that opens the session.
    pub fn init_command(&self) -> (wire: String)
        ensures
            wire@ == init_line(self.secret()),
    {
        command("init password=".to_string().concat(self.password.as_str()).concat(",compression=off"))
    }

    /// Whether the lines that an hdata announces are worth a notification:
    /// one of them is highlighted, or is tagged as private.
    pub fn buffer_line_added(&self, hdata: &HData) -> (r: Result<bool, WeechatError>)
        ensures
            verdict(r) == worth_notice(hdata@, false),
    {
        let ghost all = hdata@;
        let mut found = false;
        let mut i: usize = 0;
        assert(all.skip(0) =~= all);
        while i < hdata.data.len()
            invariant
                i <= hdata.data.len(),
                all == hdata@,
                worth_notice(all, false) == worth_notice(all.skip(i as int), found),
            decreases hdata.data.len() - i,
        {
            let data = &hdata.data[i];
            assert(all.skip(i as int)[0] == data@);
            assert(all.skip(i as int).drop_first() =~= all.skip(i + 1));
            let highlight = match data.get("highlight") {
                Some(object) => match object.as_character() {
                    Ok(highlight) => highlight,
                    Err(e) => {
                        return Err(e);
                    },
                },
                None => {
                    return Err(WeechatError::parse("Record has no highlight"));
                },
            };
            if highlight == '\x01' {
                return Ok(true);
            }
            let tags_array = match data.get("tags_array") {
                Some(object) => match object {
                    Object::Arr(tags) => {
                        proof {
                            lemma_view_arr(*tags);
                        }
                        tags
                    },
                    _ => {
                        return Err(WeechatError::parse("Item is not an array"));
                    },
                },
                None => {
                    return Err(WeechatError::parse("Record has no tags_array"));
                },
            };
            match tagged_private_in(tags_array.as_slice()) {
                Ok(tagged) => {
                    found = found || tagged;
                },
                Err(e) => {
                    return Err(e);
                },
            }
            i += 1;
        }
        Ok(found)
    }

    /// The state in which every session begins, and its first action.
    pub fn begin(&self) -> (r: (State, Action))
        ensures
            r.0 == State::Disconnected,
            r.1@ == Deed::Connect,
    {
        (State::Disconnected, Action::Connect)
    }

    /// The state that follows `state` on `event`, and the action to take.
    pub fn step(&self, state: State, event: Event) -> (r: (State, Action))
        ensures
            (r.0, r.1@) == next(self.secret(), state, event@),
    {
        match state {
            State::Disconnected => match event {
                Event::Connected => (State::Connected, Action::Send(self.init_command())),
                Event::ConnectFailed(cause) => (State::Closed, Action::Fail(WeechatError::Io(cause))),
                _ => (State::Closed, Action::Fail(out_of_turn_error())),
            },
            State::Connected => match event {
                Event::Sent => (State::Pinging, Action::Send(command("ping".to_string()))),
                Event::SendFailed(cause) => close(WeechatError::Io(cause)),
                _ => close(out_of_turn_error()),
            },
            State::Pinging => match event {
                Event::Sent | Event::SendFailed(_) => (
                    State::ProbeHeader,
                    Action::Receive(HEADER_LENGTH),
                ),
                _ => close(out_of_turn_error()),
            },
            State::ProbeHeader => match event {
                Event::Received(bytes) => match Header::new(bytes.as_slice()) {
                    Ok(header) => (State::ProbeBody(header.length), Action::Receive(header.length)),
                    Err(e) => close(e),
                },
                Event::ReceiveFailed(cause) => close(probe_error(cause)),
                _ => close(out_of_turn_error()),
            },
            State::ProbeBody(_) => match event {
                Event::Received(bytes) => match Message::new(bytes.as_slice()) {
                    Ok(_) => (State::Subscribing, Action::Send(command("sync * buffer".to_string()))),
                    Err(e) => close(e),
                },
                Event::ReceiveFailed(cause) => close(probe_error(cause)),
                _ => close(out_of_turn_error()),
            },
            State::Subscribing => match event {
                Event::Sent => (State::Header, Action::Receive(HEADER_LENGTH)),
                Event::SendFailed(cause) => close(WeechatError::Io(cause)),
                _ => close(out_of_turn_error()),
            },
            State::Header => match event {
                Event::Received(bytes) => match Header::new(bytes.as_slice()) {
                    Ok(header) => (State::Body(header.length), Action::Receive(header.length)),
                    Err(e) => close(e),
                },
                Event::ReceiveFailed(cause) => close(WeechatError::Io(cause)),
                _ => close(out_of_turn_error()),
            },
            State::Body(_) => match event {
                Event::Received(bytes) => match Message::new(bytes.as_slice()) {
                    Ok(msg) => self.dispatch(&msg),
                    Err(e) => close(e),
                },
                Event::ReceiveFailed(cause) => close(WeechatError::Io(cause)),
                _ => close(out_of_turn_error()),
            },
            State::Notifying => match event {
                Event::Notified => (State::Header, Action::Receive(HEADER_LENGTH)),
                _ => close(out_of_turn_error()),
            },
            State::Closed => (State::Closed, Action::Fail(out_of_turn_error())),
        }
    }

    /// What the session does with a message that arrived while streaming.
    fn dispatch(&self, msg: &Message) -> (r: (State, Action))
        ensures
            (r.0, r.1@) == dispatch(msg@.0, msg@.1),
    {
        if text_eq(msg.identifier(), "_buffer_line_added") {
            let hdata = match msg.as_hdata() {
                Ok(hdata) => hdata,
                Err(e) => {
                    return close(e);
                },
            };
            match self.buffer_line_added(hdata) {
                Ok(true) => (State::Notifying, Action::Notify),
                Ok(false) => (State::Header, Action::Receive(HEADER_LENGTH)),
                Err(e) => close(e),
            }
        } else {
            (State::Header, Action::Receive(HEADER_LENGTH))
        }
    }
}

/// Ends a session whose transport is open.
fn close(cause: WeechatError) -> (r: (State, Action))
    ensures
        (r.0, r.1@) == closing(cause@),
{
    (State::Closed, Action::Close(command("quit".to_string()), cause))
}

/// The error for an event that does not answer the action that was asked for.
fn out_of_turn_error() -> (e: WeechatError)
    ensures
        e@ == out_of_turn(),
{
    WeechatError::Io(
        IoFailure { kind: IoKind::Other, detail: "Event does not answer the action".to_string() },
    )
}

/// The error that a failed read during the probe stands for.
fn probe_error(cause: IoFailure) -> (e: WeechatError)
    ensures
        e@ == probe_failure(cause.kind, cause.detail@),
{
    match cause.kind {
        IoKind::UnexpectedEof => WeechatError::BadPassword,
        IoKind::Other => WeechatError::Io(cause),
    }
}

/// Whether a record has the fields that a notification is decided on: a
/// char `highlight`, and an array `tags_array` of strings that are not null.
pub open spec fn readable(fields: Fields) -> bool {
    &&& fields.contains_key("highlight"@)
    &&& fields["highlight"@] is Chr
    &&& fields.contains_key("tags_array"@)
    &&& fields["tags_array"@] matches Value::Arr(tags) && forall|j: int|
        0 <= j < tags.len() ==> (#[trigger] tags[j]) matches Value::Str(Some(_))
}

/// Whether a record is of a line that is highlighted or tagged as private.
pub open spec fn notable(fields: Fields) -> bool {
    ||| fields["highlight"@] == Value::Chr('\x01')
    ||| fields["tags_array"@] matches Value::Arr(tags) && tags.contains(
        Value::Str(Some(private_tag())),
    )
}

/// Among strings that are not null, the tag for private lines is found
/// exactly where it is.
pub proof fn lemma_tagged_private(tags: Seq<Value>)
    requires
        forall|j: int| 0 <= j < tags.len() ==> (#[trigger] tags[j]) matches Value::Str(Some(_)),
    ensures
        tagged_private(tags) == Ok::<bool, Fault>(tags.contains(Value::Str(Some(private_tag())))),
    decreases tags.len(),
{
    if tags.len() > 0 {
        let tail = tags.drop_first();
        assert(tags[0] matches Value::Str(Some(_)));
        assert forall|j: int| 0 <= j < tail.len() implies (#[trigger] tail[j]) matches Value::Str(
            Some(_),
        ) by {
            assert(tail[j] == tags[j + 1]);
        }
        lemma_tagged_private(tail);
        let wanted = Value::Str(Some(private_tag()));
        if tail.contains(wanted) {
            let j = choose|j: int| 0 <= j < tail.len() && tail[j] == wanted;
            assert(tags[j + 1] == wanted);
        }
        if tags.contains(wanted) && tags[0] != wanted {
            let j = choose|j: int| 0 <= j < tags.len() && tags[j] == wanted;
            assert(tail[j - 1] == wanted);
        }
    }
}

/// Records that can be read are worth a notification exactly when one of
/// them is highlighted or tagged as private, or an earlier one was.
pub proof fn lemma_worth_notice(records: Seq<Fields>, found: bool)
    requires
        forall|i: int| 0 <= i < records.len() ==> readable(#[trigger] records[i]),
    ensures
        worth_notice(records, found) == Ok::<bool, Fault>(
            found || exists|i: int| 0 <= i < records.len() && notable(#[trigger] records[i]),
        ),
    decreases records.len(),
{
    if records.len() > 0 {
        let tail = records.drop_first();
        assert(readable(records[0]));
        let tags = records[0]["tags_array"@]->Arr_0;
        lemma_tagged_private(tags);
        let tagged = tags.contains(Value::Str(Some(private_tag())));
        assert forall|i: int| 0 <= i < tail.len() implies readable(#[trigger] tail[i]) by {
            assert(tail[i] == records[i + 1]);
        }
        lemma_worth_notice(tail, found || tagged);
        if exists|i: int| 0 <= i < tail.len() && notable(#[trigger] tail[i]) {
            let i = choose|i: int| 0 <= i < tail.len() && notable(#[trigger] tail[i]);
            assert(notable(records[i + 1]));
        }
        if exists|i: int| 0 <= i < records.len() && notable(#[trigger] records[i]) {
            let i = choose|i: int| 0 <= i < records.len() && notable(#[trigger] records[i]);
            if i > 0 {
                assert(notable(tail[i - 1]));
            }
        }
    }
}

/// A line is worth a notification exactly when one of its records is
/// highlighted or tagged as private, where the records can be read.
pub proof fn notice_is_highlight_or_private_tag(records: Seq<Fields>)
    requires
        forall|i: int| 0 <= i < records.len() ==> readable(#[trigger] records[i]),
    ensures
        worth_notice(records, false) == Ok::<bool, Fault>(
            exists|i: int| 0 <= i < records.len() && notable(#[trigger] records[i]),
        ),
{
    lemma_worth_notice(records, false);
}

/// Deciding on a notification fails with a parse error or not at all.
pub proof fn lemma_worth_notice_fault(records: Seq<Fields>, found: bool)
    ensures
        fails_as_parse(worth_notice(records, found)),
    decreases records.len(),
{
    if records.len() > 0 {
        if records[0].contains_key("tags_array"@) {
            if let Value::Arr(tags) = records[0]["tags_array"@] {
                lemma_tagged_private_fault(tags);
            }
        }
        if let Ok(tagged) = private(records[0]) {
            lemma_worth_notice_fault(records.drop_first(), found || tagged);
        }
    }
}

/// Looking for the tag for private lines fails with a parse error or not at all.
pub proof fn lemma_tagged_private_fault(tags: Seq<Value>)
    ensures
        fails_as_parse(tagged_private(tags)),
    decreases tags.len(),
{
    if tags.len() > 0 {
        lemma_tagged_private_fault(tags.drop_first());
    }
}

/// The action that a state waits on, for a relay with the password
/// `password`; none where the session is over.
pub open spec fn awaited(password: Seq<char>, state: State) -> Option<Deed> {
    match state {
        State::Disconnected => Some(Deed::Connect),
        State::Connected => Some(Deed::Send(init_line(password))),
        State::Pinging => Some(Deed::Send(ping_line())),
        State::ProbeHeader => Some(Deed::Receive(HEADER_LENGTH as nat)),
        State::ProbeBody(n) => Some(Deed::Receive(n as nat)),
        State::Subscribing => Some(Deed::Send(sync_line())),
        State::Header => Some(Deed::Receive(HEADER_LENGTH as nat)),
        State::Body(n) => Some(Deed::Receive(n as nat)),
        State::Notifying => Some(Deed::Notify),
        State::Closed => None,
    }
}

/// How far a stage is along the course of a session.
pub open spec fn progress(stage: Phase) -> nat {
    match stage {
        Phase::Disconnected => 0,
        Phase::Connected => 1,
        Phase::Authenticating => 2,
        Phase::Streaming => 3,
        Phase::Closed => 4,
    }
}

/// Every step asks for the action that the state it leads to waits on; and
/// it ends the session exactly when it asks to close or to fail.
pub proof fn step_asks_what_is_awaited(password: Seq<char>, state: State, event: Occurrence)
    ensures
        ({
            let (after, deed) = next(password, state, event);
            &&& after != State::Closed ==> awaited(password, after) == Some(deed)
            &&& after == State::Closed <==> deed is Close || deed is Fail
            &&& deed is Fail ==> state == State::Disconnected || state == State::Closed
        }),
{
    if let Occurrence::Received(bytes) = event {
        if let Ok((length, _)) = header(bytes) {
            assert(length < usize::MAX);
        }
    }
}

/// A session never goes back to an earlier stage, and once it is over it
/// stays so.
pub proof fn stages_only_advance(password: Seq<char>, state: State, event: Occurrence)
    ensures
        progress(state.stage()) <= progress(next(password, state, event).0.stage()),
        state == State::Closed ==> next(password, state, event).0 == State::Closed,
{
}

/// A bad password is reported exactly when the stream ends while the reply
/// to the probe is being read. The same end of stream at any other time is
/// an I/O error, and so is every other failure of the transport.
pub proof fn bad_password_is_end_of_stream_in_probe(
    password: Seq<char>,
    state: State,
    event: Occurrence,
)
    ensures
        ({
            let deed = next(password, state, event).1;
            let on_probe = state is ProbeHeader || state is ProbeBody;
            let end_of_stream = event matches Occurrence::ReceiveFailed(IoKind::UnexpectedEof, _);
            &&& !(deed matches Deed::Fail(Fault::BadPassword))
            &&& (deed matches Deed::Close(_, Fault::BadPassword)) <==> (on_probe && end_of_stream)
            &&& (state is Header || state is Body) && event is ReceiveFailed ==> (deed matches Deed::Close(
                _,
                Fault::Io(_, _),
            ))
        }),
{
    if let Occurrence::Received(bytes) = event {
        lemma_header_fault(bytes);
        lemma_message_fault(bytes);
        if let Ok((identifier, Payload::HData(records))) = message(bytes) {
            lemma_worth_notice_fault(records, false);
        }
    }
}

/// While streaming, a message with any identifier but that of a new line
/// is passed over, and the session reads on.
pub proof fn other_messages_are_passed_over(password: Seq<char>, length: usize, bytes: Seq<u8>)
    requires
        message(bytes) matches Ok((identifier, _)) && identifier != line_added(),
    ensures
        next(password, State::Body(length), Occurrence::Received(bytes)) == (
            State::Header,
            Deed::Receive(HEADER_LENGTH as nat),
        ),
{
}

} // verus!
