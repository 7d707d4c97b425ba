//! Endpoints that somebody waits for: for the peer's request to start, or for a
//! local client.

use vstd::prelude::*;
use vstd::string::*;
use std::collections::HashSet;
use crate::text;

verus! {

broadcast use vstd::std_specs::hash::group_hash_axioms;

/// The endpoint is waited for already.
#[derive(Clone, Copy, Debug, PartialEq, Eq, Structural)]
pub struct EndpointAlreadyRegistered {
    pub endpoint_id: u16,
}

/// A control message that could not be handled.
#[derive(Debug)]
pub struct ControlError(pub String);

impl ControlError {
    pub fn message(&self) -> (r: String)
        ensures
            r@ == "control error: "@ + self.0@,
    {
        let mut r = "control error: ".to_owned();
        r.append(self.0.as_str());
        r
    }
}

/// What kind of error a local connection meets.
#[derive(Clone, Copy, Debug, PartialEq, Eq, Structural)]
pub enum ComErrorKind {
    AlreadyExists,
    NotFound,
}

/// An error of a local connection.
#[derive(Debug)]
pub struct ComError {
    pub kind: ComErrorKind,
    pub text: String,
}

/// The endpoints that wait for the peer's request to start. Each waits once.
pub struct Waiters {
    waiters: HashSet<u16>,
}

impl View for Waiters {
    type V = Set<u16>;

    closed spec fn view(&self) -> Set<u16> {
        self.waiters@
    }
}

impl Waiters {
    pub fn new() -> (r: Self)
        ensures
            r@ == Set::<u16>::empty(),
    {
        Waiters { waiters: HashSet::new() }
    }

    /// Waits for the request to start an endpoint.
    pub fn register_start_request_receiver(&mut self, endpoint_id: u16) -> (r: Result<
        (),
        EndpointAlreadyRegistered,
    >)
        ensures
            match r {
                Ok(_) => !old(self)@.contains(endpoint_id) && final(self)@ == old(self)@.insert(
                    endpoint_id,
                ),
                Err(error) => {
                    &&& old(self)@.contains(endpoint_id)
                    &&& error.endpoint_id == endpoint_id
                    &&& final(self)@ == old(self)@
                },
            },
    {
        if self.waiters.contains(&endpoint_id) {
            return Err(EndpointAlreadyRegistered { endpoint_id });
        }
        self.waiters.insert(endpoint_id);
        Ok(())
    }

    /// Handles the peer's request to start an endpoint: whoever waits for it is
    /// to be told, once.
    pub fn handle_msg(&mut self, endpoint_id: u16) -> (r: Result<(), ControlError>)
        ensures
            match r {
                Ok(_) => old(self)@.contains(endpoint_id) && final(self)@ == old(self)@.remove(
                    endpoint_id,
                ),
                Err(error) => {
                    &&& !old(self)@.contains(endpoint_id)
                    &&& error.0@ == "Received unexpected start request for endpoint "@
                        + text::digits(endpoint_id as nat, 10)
                    &&& final(self)@ == old(self)@
                },
            },
    {
        if self.waiters.remove(&endpoint_id) {
            Ok(())
        } else {
            assert(self@ =~= old(self)@);
            let mut message = "Received unexpected start request for endpoint ".to_owned();
            let number = text::number(endpoint_id as u64, 10);
            message.append(number.as_str());
            Err(ControlError(message))
        }
    }
}

/// The endpoints that wait for their local client.
pub struct PendingEndpoints {
    pending_endpoints: HashSet<u16>,
}

impl View for PendingEndpoints {
    type V = Set<u16>;

    closed spec fn view(&self) -> Set<u16> {
        self.pending_endpoints@
    }
}

impl PendingEndpoints {
    pub fn new() -> (r: Self)
        ensures
            r@ == Set::<u16>::empty(),
    {
        PendingEndpoints { pending_endpoints: HashSet::new() }
    }

    /// Waits for the client of an endpoint.
    pub fn register(&mut self, endpoint_id: u16) -> (r: Result<(), ComError>)
        ensures
            match r {
                Ok(_) => !old(self)@.contains(endpoint_id) && final(self)@ == old(self)@.insert(
                    endpoint_id,
                ),
                Err(error) => {
                    &&& old(self)@.contains(endpoint_id)
                    &&& error.kind is AlreadyExists
                    &&& error.text@ == "Endpoint {endpoint_id} already pending"@
                    &&& final(self)@ == old(self)@
                },
            },
    {
        if self.pending_endpoints.contains(&endpoint_id) {
            return Err(
                ComError {
                    kind: ComErrorKind::AlreadyExists,
                    text: "Endpoint {endpoint_id} already pending".to_owned(),
                },
            );
        }
        self.pending_endpoints.insert(endpoint_id);
        Ok(())
    }

    /// Handles a client that says which endpoint it is for: an endpoint gets one
    /// client.
    pub fn handle_stream(&mut self, endpoint_id: u16) -> (r: Result<(), ComError>)
        ensures
            match r {
                Ok(_) => old(self)@.contains(endpoint_id) && final(self)@ == old(self)@.remove(
                    endpoint_id,
                ),
                Err(error) => {
                    &&& !old(self)@.contains(endpoint_id)
                    &&& error.kind is NotFound
                    &&& error.text@ == "Connection received for unknown endpoint id: "@
                        + text::digits(endpoint_id as nat, 16)
                    &&& final(self)@ == old(self)@
                },
            },
    {
        if self.pending_endpoints.remove(&endpoint_id) {
            Ok(())
        } else {
            assert(self@ =~= old(self)@);
            let mut message = "Connection received for unknown endpoint id: ".to_owned();
            let number = text::number(endpoint_id as u64, 16);
            message.append(number.as_str());
            Err(ComError { kind: ComErrorKind::NotFound, text: message })
        }
    }
}

/// Where a local client finds an endpoint: the address of the socket, as text,
/// and the endpoint's id.
#[derive(Debug)]
pub struct KyComAddr {
    pub addr: String,
    pub endpoint_id: u16,
}

impl KyComAddr {
    pub fn new(addr: String, endpoint_id: u16) -> (r: Self)
        ensures
            r.addr@ == addr@,
            r.endpoint_id == endpoint_id,
    {
        KyComAddr { addr, endpoint_id }
    }

    pub fn url(&self) -> (r: String)
        ensures
            r@ == "kymux://"@ + self.addr@ + "/"@ + text::digits(self.endpoint_id as nat, 16),
    {
        let mut r = "kymux://".to_owned();
        r.append(self.addr.as_str());
        r.append("/");
        let number = text::number(self.endpoint_id as u64, 16);
        r.append(number.as_str());
        r
    }
}

} // verus!
