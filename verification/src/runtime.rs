//! The decision logic of the TCP source runtime.
//!
//! The accept loop and the per-connection handler live with the
//! executor and the sockets; every decision they take — spawn or not,
//! keep reading or close, forward a frame or drop it — is a function
//! from state and event to next state and action, defined and proved
//! here. The surrounding I/O performs the actions and feeds the events
//! back.

use vstd::prelude::*;
use crate::codec::{DecodeError, FluentDecoder, FluentFrame};
use crate::value::{build_event, EventValue, LogSchema, event_of};
use crate::addr::SocketListenAddr;

verus! {

/// Whether an error of a connection's codec must close the connection.
pub trait IsErrorFatal {
    /// The classification, at the model level.
    spec fn fatal_spec(&self) -> bool;

    /// Classify this error.
    fn is_error_fatal(&self) -> (r: bool)
        ensures
            r == self.fatal_spec(),
    ;
}

impl IsErrorFatal for DecodeError {
    open spec fn fatal_spec(&self) -> bool {
        self.spec_is_fatal()
    }

    /// Transport errors are fatal; decode-level errors are not.
    fn is_error_fatal(&self) -> (r: bool) {
        match self {
            DecodeError::Io => true,
            DecodeError::Decode => false,
            DecodeError::UnknownCompression(_) => false,
            DecodeError::UnexpectedValue(_) => false,
        }
    }
}

/// The default shutdown grace, in seconds: the tripwire fires this long
/// after the shutdown signal.
pub const DEFAULT_SHUTDOWN_GRACE_SECS: u64 = 30;

/// The accept loop's state: whether it still accepts, and the open
/// connection gauge.
#[derive(Debug, Clone, Copy, PartialEq, Eq, Structural)]
pub struct ListenerState {
    pub accepting: bool,
    pub open_connections: u64,
}

/// What the accept loop observes.
#[derive(Debug, Clone, Copy, PartialEq, Eq, Structural)]
pub enum ListenEvent {
    AcceptOk,
    AcceptFailed,
    ShutdownSignal,
    ConnectionClosed,
}

/// What the accept loop does next.
#[derive(Debug, Clone, Copy, PartialEq, Eq, Structural)]
pub enum ListenAction {
    SpawnConnection,
    LogAndContinue,
    StopAccepting,
    Nothing,
}

impl ListenerState {
    /// The state before the listener starts.
    pub fn initial() -> (r: ListenerState)
        ensures
            r.accepting,
            r.open_connections == 0,
    {
        ListenerState { accepting: true, open_connections: 0 }
    }

    /// One step of the accept loop.
    ///
    /// An accepted socket is spawned as a connection and counted, but
    /// only while accepting; an accept error is logged and never fatal;
    /// the shutdown signal stops accepting at once; a connection's exit
    /// is discounted. The gauge saturates instead of wrapping.
    pub fn step(self, e: ListenEvent) -> (r: (ListenerState, ListenAction))
        ensures
            e is ShutdownSignal ==> r == (ListenerState {
                accepting: false,
                ..self
            }, ListenAction::StopAccepting),
            e is AcceptOk && self.accepting ==> r == (ListenerState {
                open_connections: if self.open_connections < u64::MAX {
                    (self.open_connections + 1) as u64
                } else {
                    u64::MAX
                },
                ..self
            }, ListenAction::SpawnConnection),
            e is AcceptOk && !self.accepting ==> r == (self, ListenAction::Nothing),
            e is AcceptFailed ==> r == (self, ListenAction::LogAndContinue),
            e is ConnectionClosed ==> r == (ListenerState {
                open_connections: if self.open_connections > 0 {
                    (self.open_connections - 1) as u64
                } else {
                    0
                },
                ..self
            }, ListenAction::Nothing),
    {
        match e {
            ListenEvent::ShutdownSignal => (ListenerState {
                accepting: false,
                ..self
            }, ListenAction::StopAccepting),
            ListenEvent::AcceptOk => if self.accepting {
                (ListenerState {
                    open_connections: if self.open_connections < u64::MAX {
                        self.open_connections + 1
                    } else {
                        u64::MAX
                    },
                    ..self
                }, ListenAction::SpawnConnection)
            } else {
                (self, ListenAction::Nothing)
            },
            ListenEvent::AcceptFailed => (self, ListenAction::LogAndContinue),
            ListenEvent::ConnectionClosed => (ListenerState {
                open_connections: if self.open_connections > 0 {
                    self.open_connections - 1
                } else {
                    0
                },
                ..self
            }, ListenAction::Nothing),
        }
    }
}

/// When the tripwire fires: the shutdown instant plus the grace,
/// saturating.
pub fn tripwire_deadline(shutdown_at_secs: u64, grace_secs: u64) -> (r: u64)
    ensures
        r == if shutdown_at_secs + grace_secs <= u64::MAX {
            shutdown_at_secs + grace_secs
        } else {
            u64::MAX as int
        },
{
    if shutdown_at_secs <= u64::MAX - grace_secs {
        shutdown_at_secs + grace_secs
    } else {
        u64::MAX
    }
}

/// A connection handler's state.
///
/// `Reading` forwards decoded frames; `Draining` keeps reading after a
/// sink failure so the peer observes a clean close, but forwards
/// nothing; `Closed` is terminal.
#[derive(Debug, Clone, Copy, PartialEq, Eq, Structural)]
pub enum ConnState {
    Handshaking,
    Reading,
    Draining,
    Closed,
}

/// What a connection handler observes.
#[derive(Debug, Clone, Copy, PartialEq, Eq, Structural)]
pub enum ConnEvent {
    HandshakeOk,
    HandshakeFailed,
    ShutdownSignal,
    TripwireFired,
    FrameDecoded,
    DecodeFailed(bool),
    SinkFailed,
    StreamEnded,
}

/// What a connection handler does next.
#[derive(Debug, Clone, Copy, PartialEq, Eq, Structural)]
pub enum ConnAction {
    Nothing,
    ForwardFrame,
    DropFrame,
    CloseWrite,
    LogAndContinue,
    Close,
}

/// One step of a connection handler.
///
/// The handshake decides between reading and closing; the shutdown
/// signal half-closes the write side and reading goes on; the tripwire
/// always closes; end of stream closes; a fatal decode error closes, a
/// non-fatal one is logged and reading goes on; a sink failure turns
/// forwarding off; a decoded frame is forwarded while reading and
/// dropped while draining. A closed connection stays closed.
pub fn conn_step(s: ConnState, e: ConnEvent) -> (r: (ConnState, ConnAction))
    ensures
        s is Closed ==> r == (ConnState::Closed, ConnAction::Nothing),
        s is Handshaking && e is HandshakeOk ==> r == (ConnState::Reading,
            ConnAction::Nothing),
        s is Handshaking && e is HandshakeFailed ==> r == (ConnState::Closed,
            ConnAction::Close),
        s is Handshaking && e is ShutdownSignal ==> r == (ConnState::Closed,
            ConnAction::Close),
        !(s is Closed) && e is TripwireFired ==> r == (ConnState::Closed,
            ConnAction::Close),
        (s is Reading || s is Draining) && e is ShutdownSignal ==> r == (s,
            ConnAction::CloseWrite),
        (s is Reading || s is Draining) && e is StreamEnded ==> r == (ConnState::Closed,
            ConnAction::Close),
        s is Reading && e is FrameDecoded ==> r == (s, ConnAction::ForwardFrame),
        s is Draining && e is FrameDecoded ==> r == (s, ConnAction::DropFrame),
        ((s is Reading || s is Draining) && e == ConnEvent::DecodeFailed(true))
            ==> r == (ConnState::Closed, ConnAction::Close),
        ((s is Reading || s is Draining) && e == ConnEvent::DecodeFailed(false))
            ==> r == (s, ConnAction::LogAndContinue),
        (s is Reading || s is Draining) && e is SinkFailed ==> r == (ConnState::Draining,
            ConnAction::Nothing),
        (s is Handshaking && (e is FrameDecoded || (e matches ConnEvent::DecodeFailed(_))
            || e is SinkFailed || e is StreamEnded)) ==> r == (s, ConnAction::Nothing),
{
    if matches!(s, ConnState::Closed) {
        return (ConnState::Closed, ConnAction::Nothing);
    }
    if matches!(e, ConnEvent::TripwireFired) {
        return (ConnState::Closed, ConnAction::Close);
    }
    match s {
        ConnState::Handshaking => match e {
            ConnEvent::HandshakeOk => (ConnState::Reading, ConnAction::Nothing),
            ConnEvent::HandshakeFailed => (ConnState::Closed, ConnAction::Close),
            ConnEvent::ShutdownSignal => (ConnState::Closed, ConnAction::Close),
            _ => (s, ConnAction::Nothing),
        },
        _ => match e {
            ConnEvent::ShutdownSignal => (s, ConnAction::CloseWrite),
            ConnEvent::StreamEnded => (ConnState::Closed, ConnAction::Close),
            ConnEvent::FrameDecoded => if matches!(s, ConnState::Reading) {
                (s, ConnAction::ForwardFrame)
            } else {
                (s, ConnAction::DropFrame)
            },
            ConnEvent::DecodeFailed(fatal) => if fatal {
                (ConnState::Closed, ConnAction::Close)
            } else {
                (s, ConnAction::LogAndContinue)
            },
            ConnEvent::SinkFailed => (ConnState::Draining, ConnAction::Nothing),
            _ => (s, ConnAction::Nothing),
        },
    }
}

/// The shutdown bound, on the decision level: once the shutdown signal
/// is seen, the accept loop never again spawns a connection — stopping
/// is absorbing and no event spawns while stopped — and the tripwire,
/// which fires at most `grace` seconds later, closes any state of any
/// connection at once. The real-time half of the bound is the timer's.
pub proof fn lemma_shutdown_bound(s: ListenerState, e: ListenEvent, c: ConnState)
    ensures
        !s.accepting ==> !(s.step_spec(e).0.accepting),
        !s.accepting ==> s.step_spec(e).1 != ListenAction::SpawnConnection,
        conn_step_spec(c, ConnEvent::TripwireFired).0 is Closed,
{
}

impl ListenerState {
    /// The accept loop's transition, at the model level.
    pub open spec fn step_spec(self, e: ListenEvent) -> (ListenerState, ListenAction) {
        match e {
            ListenEvent::ShutdownSignal => (ListenerState {
                accepting: false,
                ..self
            }, ListenAction::StopAccepting),
            ListenEvent::AcceptOk => if self.accepting {
                (ListenerState {
                    open_connections: if self.open_connections < u64::MAX {
                        (self.open_connections + 1) as u64
                    } else {
                        u64::MAX
                    },
                    ..self
                }, ListenAction::SpawnConnection)
            } else {
                (self, ListenAction::Nothing)
            },
            ListenEvent::AcceptFailed => (self, ListenAction::LogAndContinue),
            ListenEvent::ConnectionClosed => (ListenerState {
                open_connections: if self.open_connections > 0 {
                    (self.open_connections - 1) as u64
                } else {
                    0
                },
                ..self
            }, ListenAction::Nothing),
        }
    }
}

/// A connection handler's transition, at the model level.
pub open spec fn conn_step_spec(s: ConnState, e: ConnEvent) -> (ConnState, ConnAction) {
    if s is Closed {
        (ConnState::Closed, ConnAction::Nothing)
    } else if e is TripwireFired {
        (ConnState::Closed, ConnAction::Close)
    } else {
        match s {
            ConnState::Handshaking => match e {
                ConnEvent::HandshakeOk => (ConnState::Reading, ConnAction::Nothing),
                ConnEvent::HandshakeFailed => (ConnState::Closed, ConnAction::Close),
                ConnEvent::ShutdownSignal => (ConnState::Closed, ConnAction::Close),
                _ => (s, ConnAction::Nothing),
            },
            _ => match e {
                ConnEvent::ShutdownSignal => (s, ConnAction::CloseWrite),
                ConnEvent::StreamEnded => (ConnState::Closed, ConnAction::Close),
                ConnEvent::FrameDecoded => if s is Reading {
                    (s, ConnAction::ForwardFrame)
                } else {
                    (s, ConnAction::DropFrame)
                },
                ConnEvent::DecodeFailed(fatal) => if fatal {
                    (ConnState::Closed, ConnAction::Close)
                } else {
                    (s, ConnAction::LogAndContinue)
                },
                ConnEvent::SinkFailed => (ConnState::Draining, ConnAction::Nothing),
                _ => (s, ConnAction::Nothing),
            },
        }
    }
}

/// TLS material for a wrapped listener, supplied by the host.
#[derive(Debug)]
pub struct TlsSettings {
    pub crt_file: Vec<u8>,
    pub key_file: Vec<u8>,
}

/// The Fluent source's configuration.
#[derive(Debug)]
pub struct FluentConfig {
    pub address: SocketListenAddr,
    pub tls: Option<TlsSettings>,
    pub keepalive_secs: Option<u64>,
    pub receive_buffer_bytes: Option<usize>,
}

impl FluentConfig {
    /// The default configuration: listen on every interface at the
    /// Fluent forward port, no TLS, no keepalive, default buffers.
    pub fn generate_config() -> (r: FluentConfig)
        ensures
            r.address == SocketListenAddr::tcp(0, 0, 0, 0, 24224),
            r.tls is None,
            r.keepalive_secs is None,
            r.receive_buffer_bytes is None,
    {
        FluentConfig {
            address: SocketListenAddr::SocketAddr(crate::addr::Ipv4Socket {
                a: 0,
                b: 0,
                c: 0,
                d: 0,
                port: 24224,
            }),
            tls: None,
            keepalive_secs: None,
            receive_buffer_bytes: None,
        }
    }
}

/// The Fluent source: what the runtime needs to serve one protocol —
/// a fresh decoder per connection, and an event per frame.
#[derive(Debug)]
pub struct FluentSource;

impl FluentSource {
    /// A fresh decoder for one connection.
    pub fn decoder(&self) -> (r: FluentDecoder)
        ensures
            r.pending@.len() == 0,
    {
        FluentDecoder::new()
    }

    /// The event of one frame, under the given schema, with the peer's
    /// host attached.
    pub fn build_event(&self, frame: FluentFrame, host: &Vec<u8>, schema: &LogSchema)
        -> (r: Vec<(Vec<u8>, EventValue)>)
        ensures
            crate::value::ev_dict_view(r@) == event_of(frame@, host@, schema@),
    {
        build_event(frame, host, schema)
    }
}

} // verus!
