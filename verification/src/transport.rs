//! Streams over any transport, and the options of transports.

use vstd::prelude::*;
use vstd::string::*;
use crate::error;

verus! {

/// A connection that cannot be made or is lost.
#[derive(Clone, Debug, PartialEq, Eq)]
pub enum ConnectionError {
    Generic { msg: String },
}

/// A datagram that cannot be sent.
#[derive(Clone, Debug, PartialEq, Eq)]
pub enum SendDatagramError {
    Generic { msg: String },
    Unsupported,
    TooLarge,
    ConnectionError(ConnectionError),
}

/// A stream that cannot be read.
#[derive(Clone, Debug, PartialEq, Eq)]
pub enum ReadError {
    Generic { msg: String },
}

/// A stream that cannot be read as far as wanted.
#[derive(Clone, Debug, PartialEq, Eq)]
pub enum ReadExactError {
    FinishedEarly,
    ReadError(ReadError),
}

/// A stream that cannot be written.
#[derive(Clone, Debug, PartialEq, Eq)]
pub enum WriteError {
    Generic { msg: String },
}

/// A stream that does not exist any more.
#[derive(Clone, Copy, Debug, PartialEq, Eq, Structural)]
pub struct UnknownStreamError;

/// `prefix` followed by `msg`.
fn prefixed(prefix: &str, msg: &String) -> (r: String)
    ensures
        r@ == prefix@ + msg@,
{
    let mut r = prefix.to_owned();
    r.append(msg.as_str());
    r
}

impl ConnectionError {
    pub fn message(&self) -> (r: String)
        ensures
            self matches ConnectionError::Generic { msg } && r@ == "generic connection error: "@
                + msg@,
    {
        match self {
            ConnectionError::Generic { msg } => prefixed("generic connection error: ", msg),
        }
    }
}

impl SendDatagramError {
    pub fn message(&self) -> (r: String)
        ensures
            r@ == match self {
                SendDatagramError::Generic { msg } => "generic send datagram error: "@ + msg@,
                SendDatagramError::Unsupported => "datagram unsupported by peer"@,
                SendDatagramError::TooLarge => "datagram too large"@,
                SendDatagramError::ConnectionError(_) => "connection error"@,
            },
    {
        match self {
            SendDatagramError::Generic { msg } => prefixed("generic send datagram error: ", msg),
            SendDatagramError::Unsupported => "datagram unsupported by peer".to_owned(),
            SendDatagramError::TooLarge => "datagram too large".to_owned(),
            SendDatagramError::ConnectionError(_) => "connection error".to_owned(),
        }
    }
}

impl ReadError {
    pub fn message(&self) -> (r: String)
        ensures
            self matches ReadError::Generic { msg } && r@ == "generic read error: "@ + msg@,
    {
        match self {
            ReadError::Generic { msg } => prefixed("generic read error: ", msg),
        }
    }
}

impl ReadExactError {
    pub fn message(&self) -> (r: String)
        ensures
            r@ == match self {
                ReadExactError::FinishedEarly => "read exact finished early"@,
                ReadExactError::ReadError(_) => "read error"@,
            },
    {
        match self {
            ReadExactError::FinishedEarly => "read exact finished early".to_owned(),
            ReadExactError::ReadError(_) => "read error".to_owned(),
        }
    }
}

impl WriteError {
    pub fn message(&self) -> (r: String)
        ensures
            self matches WriteError::Generic { msg } && r@ == "generic write error: "@ + msg@,
    {
        match self {
            WriteError::Generic { msg } => prefixed("generic write error: ", msg),
        }
    }
}

impl UnknownStreamError {
    pub fn message(&self) -> (r: String)
        ensures
            r@ == "unknown stream"@,
    {
        "unknown stream".to_owned()
    }
}

/// Why a transport did not send a datagram.
#[derive(Debug)]
pub enum DatagramFailure {
    UnsupportedByPeer,
    Disabled,
    TooLarge,
    ConnectionLost(ConnectionError),
}

impl SendDatagramError {
    /// What a failure of the transport is to the caller: whether it is this side
    /// or the peer that does not take datagrams makes no difference.
    pub fn from_failure(failure: DatagramFailure) -> (r: Self)
        ensures
            r == match failure {
                DatagramFailure::UnsupportedByPeer => SendDatagramError::Unsupported,
                DatagramFailure::Disabled => SendDatagramError::Unsupported,
                DatagramFailure::TooLarge => SendDatagramError::TooLarge,
                DatagramFailure::ConnectionLost(error) => SendDatagramError::ConnectionError(
                    error,
                ),
            },
    {
        match failure {
            DatagramFailure::UnsupportedByPeer => SendDatagramError::Unsupported,
            DatagramFailure::Disabled => SendDatagramError::Unsupported,
            DatagramFailure::TooLarge => SendDatagramError::TooLarge,
            DatagramFailure::ConnectionLost(error) => SendDatagramError::ConnectionError(error),
        }
    }
}

/// Why a connection ended.
#[derive(Debug)]
pub enum CloseReason {
    LocallyClosed,
    ApplicationClosed,
    Lost(String),
}

/// Whether the end of a connection is an error: it is none if either side closed
/// it.
pub fn closed(reason: CloseReason) -> (r: Result<(), error::ConnectionError>)
    ensures
        match r {
            Ok(_) => !(reason is Lost),
            Err(error) => reason matches CloseReason::Lost(text) && error.0@ == text@,
        },
{
    match reason {
        CloseReason::LocallyClosed => Ok(()),
        CloseReason::ApplicationClosed => Ok(()),
        CloseReason::Lost(text) => Err(error::ConnectionError(text)),
    }
}

/// What a transport does to abandon a stream.
pub trait SendStreamDriver: Sized {
    /// The driver may go from `before` to `after` and answer `r`. One that does
    /// not say more may do anything.
    open spec fn aborts(before: Self, after: Self, r: Result<(), UnknownStreamError>) -> bool {
        true
    }

    fn abort(&mut self) -> (r: Result<(), UnknownStreamError>)
        ensures
            Self::aborts(*old(self), *final(self), r),
    ;
}

/// What a transport reads a stream with.
pub trait RecvStreamDriver: Sized {

}

/// A stream to write to, over any transport.
#[derive(Debug)]
pub struct SendStream<D: SendStreamDriver> {
    pub driver: D,
}

impl<D: SendStreamDriver> SendStream<D> {
    pub fn new(driver: D) -> (r: Self)
        ensures
            r.driver == driver,
    {
        SendStream { driver }
    }

    /// Abandons the stream, as its transport does.
    pub fn abort(&mut self) -> (r: Result<(), UnknownStreamError>)
        ensures
            D::aborts(old(self).driver, final(self).driver, r),
    {
        self.driver.abort()
    }
}

/// A stream to read from, over any transport.
#[derive(Debug)]
pub struct RecvStream<D: RecvStreamDriver> {
    pub driver: D,
}

impl<D: RecvStreamDriver> RecvStream<D> {
    pub fn new(driver: D) -> (r: Self)
        ensures
            r.driver == driver,
    {
        RecvStream { driver }
    }
}

/// How often a connection that is otherwise silent is kept alive, in
/// nanoseconds.
pub const KEEP_ALIVE_INTERVAL_NANOS: u128 = 5_000_000_000;

/// Options of a QUIC server. Times are in nanoseconds.
#[derive(Clone, Copy, Debug, PartialEq, Eq, Structural)]
pub struct QuinnServerOptions {
    pub max_idle_timeout: Option<u128>,
    pub keep_alive_interval: Option<u128>,
}

/// Options of a QUIC client. Times are in nanoseconds.
#[derive(Clone, Copy, Debug, PartialEq, Eq, Structural)]
pub struct QuinnClientOptions {
    pub max_idle_timeout: Option<u128>,
    pub keep_alive_interval: Option<u128>,
}

/// Options of a WebTransport server. Times are in nanoseconds.
#[derive(Clone, Copy, Debug, PartialEq, Eq, Structural)]
pub struct WTransportServerOptions {
    pub max_idle_timeout: Option<u128>,
    pub keep_alive_interval: Option<u128>,
}

/// Options of a WebTransport client. Times are in nanoseconds.
#[derive(Clone, Copy, Debug, PartialEq, Eq, Structural)]
pub struct WTransportClientOptions {
    pub max_idle_timeout: Option<u128>,
    pub keep_alive_interval: Option<u128>,
}

impl Default for QuinnServerOptions {
    fn default() -> (r: Self)
        ensures
            r == (QuinnServerOptions { max_idle_timeout: None, keep_alive_interval: None }),
    {
        QuinnServerOptions { max_idle_timeout: None, keep_alive_interval: None }
    }
}

impl Default for QuinnClientOptions {
    fn default() -> (r: Self)
        ensures
            r == (QuinnClientOptions { max_idle_timeout: None, keep_alive_interval: None }),
    {
        QuinnClientOptions { max_idle_timeout: None, keep_alive_interval: None }
    }
}

impl Default for WTransportServerOptions {
    fn default() -> (r: Self)
        ensures
            r == (WTransportServerOptions { max_idle_timeout: None, keep_alive_interval: None }),
    {
        WTransportServerOptions { max_idle_timeout: None, keep_alive_interval: None }
    }
}

impl Default for WTransportClientOptions {
    fn default() -> (r: Self)
        ensures
            r == (WTransportClientOptions { max_idle_timeout: None, keep_alive_interval: None }),
    {
        WTransportClientOptions { max_idle_timeout: None, keep_alive_interval: None }
    }
}

/// The options that the multiplexer's QUIC server uses.
pub fn quic_server_options() -> (r: QuinnServerOptions)
    ensures
        r == (QuinnServerOptions {
            max_idle_timeout: None,
            keep_alive_interval: Some(KEEP_ALIVE_INTERVAL_NANOS),
        }),
        r.keep_alive_interval == Some(5_000_000_000u128),
{
    QuinnServerOptions {
        keep_alive_interval: Some(KEEP_ALIVE_INTERVAL_NANOS),
        ..QuinnServerOptions::default()
    }
}

/// The options that the multiplexer's QUIC client uses.
pub fn quic_client_options() -> (r: QuinnClientOptions)
    ensures
        r == (QuinnClientOptions {
            max_idle_timeout: None,
            keep_alive_interval: Some(KEEP_ALIVE_INTERVAL_NANOS),
        }),
        r.keep_alive_interval == Some(5_000_000_000u128),
{
    QuinnClientOptions {
        keep_alive_interval: Some(KEEP_ALIVE_INTERVAL_NANOS),
        ..QuinnClientOptions::default()
    }
}

/// The options that the multiplexer's WebTransport server uses.
pub fn wtransport_server_options() -> (r: WTransportServerOptions)
    ensures
        r == (WTransportServerOptions {
            max_idle_timeout: None,
            keep_alive_interval: Some(KEEP_ALIVE_INTERVAL_NANOS),
        }),
        r.keep_alive_interval == Some(5_000_000_000u128),
{
    WTransportServerOptions {
        keep_alive_interval: Some(KEEP_ALIVE_INTERVAL_NANOS),
        ..WTransportServerOptions::default()
    }
}

} // verus!
