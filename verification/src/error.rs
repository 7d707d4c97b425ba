//! Errors.

use vstd::prelude::*;
use vstd::string::*;
use crate::text;

verus! {

/// `prefix` followed by `text`.
fn prefixed(prefix: &str, text: &String) -> (r: String)
    ensures
        r@ == prefix@ + text@,
{
    let mut r = prefix.to_owned();
    r.append(text.as_str());
    r
}

/// A peer that does not follow the protocol, or a transport that fails it.
#[derive(Clone, Debug)]
pub struct ProtocolError(pub String);

impl ProtocolError {
    pub fn new(value: &str) -> (r: Self)
        ensures
            r.0@ == value@,
    {
        ProtocolError(value.to_owned())
    }

    pub fn message(&self) -> (r: String)
        ensures
            r@ == "Protocol error: "@ + self.0@,
    {
        prefixed("Protocol error: ", &self.0)
    }
}

/// A connection that cannot be made or is lost.
#[derive(Clone, Debug, PartialEq, Eq)]
pub struct ConnectionError(pub String);

/// A datagram that cannot be sent.
#[derive(Clone, Debug, PartialEq, Eq)]
pub struct SendDatagramError(pub String);

/// A stream that cannot be read.
#[derive(Clone, Debug, PartialEq, Eq)]
pub struct ReadError(pub String);

/// A stream that cannot be read as far as wanted.
#[derive(Clone, Debug, PartialEq, Eq)]
pub enum ReadExactError {
    /// The stream ended after this many bytes.
    FinishedEarly(usize),
    ReadError(ReadError),
}

/// A stream that cannot be written.
#[derive(Clone, Debug, PartialEq, Eq)]
pub struct WriteError(pub String);

/// A stream that does not exist any more.
#[derive(Clone, Copy, Debug, PartialEq, Eq, Structural)]
pub struct UnknownStreamError;

/// A certificate or a key that cannot be used.
#[derive(Debug)]
pub struct CertError(pub String);

/// A certificate or a key that cannot be loaded.
#[derive(Debug)]
pub enum LoadCertError {
    Io(String),
    Cert(CertError),
}

impl ConnectionError {
    pub fn message(&self) -> (r: String)
        ensures
            r@ == "connection error: "@ + self.0@,
    {
        prefixed("connection error: ", &self.0)
    }

    /// A certificate that cannot be used makes the connection impossible.
    pub fn from_cert(error: CertError) -> (r: Self)
        ensures
            r.0@ == error.0@,
    {
        ConnectionError(error.0)
    }
}

impl SendDatagramError {
    pub fn message(&self) -> (r: String)
        ensures
            r@ == "send datagram error: "@ + self.0@,
    {
        prefixed("send datagram error: ", &self.0)
    }
}

impl ReadError {
    pub fn message(&self) -> (r: String)
        ensures
            r@ == "read error: "@ + self.0@,
    {
        prefixed("read error: ", &self.0)
    }
}

impl ReadExactError {
    pub fn message(&self) -> (r: String)
        ensures
            r@ == match self {
                ReadExactError::FinishedEarly(read) => "read exact finished early ("@
                    + text::digits(*read as nat, 10) + " bytes read)"@,
                ReadExactError::ReadError(_) => "read error"@,
            },
    {
        match self {
            ReadExactError::FinishedEarly(read) => {
                let mut r = "read exact finished early (".to_owned();
                let number = text::number(*read as u64, 10);
                r.append(number.as_str());
                r.append(" bytes read)");
                r
            },
            ReadExactError::ReadError(_) => "read error".to_owned(),
        }
    }
}

impl WriteError {
    pub fn message(&self) -> (r: String)
        ensures
            r@ == "write error: "@ + self.0@,
    {
        prefixed("write error: ", &self.0)
    }
}

impl UnknownStreamError {
    pub fn message(&self) -> (r: String)
        ensures
            r@ == "unknown stream"@,
    {
        "unknown stream".to_owned()
    }
}

impl CertError {
    pub fn message(&self) -> (r: String)
        ensures
            r@ == "certificate error: "@ + self.0@,
    {
        prefixed("certificate error: ", &self.0)
    }
}

impl LoadCertError {
    pub fn message(&self) -> (r: String)
        ensures
            r@ == match self {
                LoadCertError::Io(_) => "IO error"@,
                LoadCertError::Cert(_) => "Certificate error"@,
            },
    {
        match self {
            LoadCertError::Io(_) => "IO error".to_owned(),
            LoadCertError::Cert(_) => "Certificate error".to_owned(),
        }
    }
}

/// What goes wrong between a client, the multiplexer and its peer.
#[derive(Clone, Debug)]
pub enum Error {
    /// A message that the protocol does not expect.
    KymuxProtocolError(String),
    /// A control message that makes no sense now.
    InvalidControlMsg,
    /// Something was done twice that happens once.
    FatalError,
    /// The endpoint still waits for something.
    EndpointBuilderNotReady,
    /// The endpoint has a channel already.
    KyChannelAlreadyRegistered { endpoint_id: u64 },
    /// No endpoint has this id.
    KyChannelUnknownId { endpoint_id: u64 },
    /// No port is left for local clients.
    IpcNoPortAvailable,
}

} // verus!
