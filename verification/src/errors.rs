//! The error type shared by the codec and the session.

use vstd::prelude::*;

verus! {

/// What the session needs to know about the kind of a transport failure.
#[derive(Debug, Clone, Copy, PartialEq, Eq)]
pub enum IoKind {
    /// The peer closed the stream before the requested bytes arrived.
    UnexpectedEof,
    /// Any other failure of the transport.
    Other,
}

/// A transport failure, as reported by whoever owns the stream.
#[derive(Debug, PartialEq, Eq)]
pub struct IoFailure {
    pub kind: IoKind,
    /// The underlying cause, in words.
    pub detail: String,
}

/// The error type used by this crate.
#[derive(Debug, PartialEq, Eq)]
pub enum WeechatError {
    /// Reading from, writing to, or opening the stream failed.
    Io(IoFailure),
    /// The relay dropped the connection right after `init`.
    BadPassword,
    /// The relay sent bytes that do not decode; the text names the step that failed.
    ParseError(String),
}

/// The mathematical content of a [`WeechatError`].
pub enum Fault {
    Io(IoKind, Seq<char>),
    BadPassword,
    Parse(Seq<char>),
}

impl View for IoFailure {
    type V = (IoKind, Seq<char>);

    open spec fn view(&self) -> (IoKind, Seq<char>) {
        (self.kind, self.detail@)
    }
}

impl View for WeechatError {
    type V = Fault;

    open spec fn view(&self) -> Fault {
        match self {
            WeechatError::Io(cause) => Fault::Io(cause.kind, cause.detail@),
            WeechatError::BadPassword => Fault::BadPassword,
            WeechatError::ParseError(detail) => Fault::Parse(detail@),
        }
    }
}

/// The fault of a decode step that failed for the reason `detail`.
pub open spec fn malformed(detail: &str) -> Fault {
    Fault::Parse(detail@)
}

/// What `description` says about a fault.
pub open spec fn description_of(fault: Fault) -> Seq<char> {
    match fault {
        Fault::Io(_, detail) => detail,
        Fault::BadPassword => "Invalid username or password"@,
        Fault::Parse(_) => "Message parse error"@,
    }
}

/// What `to_string` says about a fault.
pub open spec fn display_of(fault: Fault) -> Seq<char> {
    match fault {
        Fault::Io(_, detail) => detail,
        Fault::BadPassword => "Invalid password"@,
        Fault::Parse(detail) => "Parse error: "@ + detail,
    }
}

impl WeechatError {
    /// A parse error that carries `detail`.
    pub fn parse(detail: &str) -> (e: WeechatError)
        ensures
            e@ == malformed(detail),
    {
        WeechatError::ParseError(detail.to_string())
    }

    /// A short name for the kind of error.
    pub fn description(&self) -> (text: String)
        ensures
            text@ == description_of(self@),
    {
        match self {
            WeechatError::Io(cause) => cause.detail.clone(),
            WeechatError::BadPassword => "Invalid username or password".to_string(),
            WeechatError::ParseError(_) => "Message parse error".to_string(),
        }
    }

    /// The error as a line for the user.
    pub fn to_string(&self) -> (text: String)
        ensures
            text@ == display_of(self@),
    {
        match self {
            WeechatError::Io(cause) => cause.detail.clone(),
            WeechatError::BadPassword => "Invalid password".to_string(),
            WeechatError::ParseError(detail) => {
                "Parse error: ".to_string().concat(detail.as_str())
            },
        }
    }
}

impl From<IoFailure> for WeechatError {
    fn from(cause: IoFailure) -> (e: WeechatError) {
        WeechatError::Io(cause)
    }
}

impl vstd::std_specs::convert::FromSpecImpl<IoFailure> for WeechatError {
    open spec fn obeys_from_spec() -> bool {
        true
    }

    open spec fn from_spec(cause: IoFailure) -> WeechatError {
        WeechatError::Io(cause)
    }
}

} // verus!
