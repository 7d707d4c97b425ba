//! Routing of streams and datagrams to endpoints.
//!
//! A stream or a datagram starts with the id of its endpoint. Ids take 64 bits
//! between multiplexers, and 16 bits where media packets are exchanged without
//! them.

use vstd::prelude::*;
use std::collections::HashSet;
use bytes::{Bytes, BytesMut};
use crate::error::Error;
use crate::wire;

verus! {

broadcast use vstd::std_specs::hash::group_hash_axioms;

/// How many bytes an id takes between multiplexers.
pub const ENDPOINT_ID_SIZE: usize = 8;

/// How many bytes a short id takes.
pub const SHORT_ENDPOINT_ID_SIZE: usize = 2;

/// The endpoints that have a channel.
pub struct Router {
    clients: HashSet<u64>,
}

impl View for Router {
    type V = Set<u64>;

    closed spec fn view(&self) -> Set<u64> {
        self.clients@
    }
}

/// The endpoint that a datagram is for, if it has a channel, given how many bytes
/// an id takes. A datagram that is too short is for none.
pub open spec fn datagram_route(
    clients: Set<u64>,
    datagram: Seq<u8>,
    id_size: usize,
) -> Option<u64> {
    let id = wire::be_value(datagram.take(id_size as int)) as u64;
    if datagram.len() >= id_size && clients.contains(id) {
        Some(id)
    } else {
        None
    }
}

impl Router {
    pub fn new() -> (r: Self)
        ensures
            r@ == Set::<u64>::empty(),
    {
        Router { clients: HashSet::new() }
    }

    /// Gives an endpoint its channel. It has one.
    pub fn register(&mut self, endpoint_id: u64) -> (r: Result<(), Error>)
        ensures
            match r {
                Ok(_) => !old(self)@.contains(endpoint_id) && final(self)@ == old(self)@.insert(
                    endpoint_id,
                ),
                Err(error) => {
                    &&& old(self)@.contains(endpoint_id)
                    &&& error == (Error::KyChannelAlreadyRegistered { endpoint_id })
                    &&& final(self)@ == old(self)@
                },
            },
    {
        if self.clients.contains(&endpoint_id) {
            return Err(Error::KyChannelAlreadyRegistered { endpoint_id });
        }
        self.clients.insert(endpoint_id);
        Ok(())
    }

    pub fn is_registered(&self, endpoint_id: u64) -> (r: bool)
        ensures
            r == self@.contains(endpoint_id),
    {
        self.clients.contains(&endpoint_id)
    }

    /// The channel of an endpoint is gone.
    pub fn unregister(&mut self, endpoint_id: u64)
        requires
            old(self)@.contains(endpoint_id),
        ensures
            final(self)@ == old(self)@.remove(endpoint_id),
    {
        self.clients.remove(&endpoint_id);
    }

    /// Routes a stream that was accepted, given the endpoint id read from it.
    /// There is none if the stream was reset before; such a stream is dropped.
    pub fn route_stream(&self, endpoint_id: Option<u64>) -> (r: Result<Option<u64>, Error>)
        ensures
            match r {
                Ok(None) => endpoint_id is None,
                Ok(Some(id)) => endpoint_id == Some(id) && self@.contains(id),
                Err(error) => {
                    &&& endpoint_id matches Some(id) && !self@.contains(id) && error == (
                    Error::KyChannelUnknownId { endpoint_id: id })
                },
            },
    {
        match endpoint_id {
            None => Ok(None),
            Some(endpoint_id) => {
                if self.clients.contains(&endpoint_id) {
                    Ok(Some(endpoint_id))
                } else {
                    Err(Error::KyChannelUnknownId { endpoint_id })
                }
            },
        }
    }

    /// The endpoint that a datagram is for. Datagrams may come at any time, also
    /// once the endpoint is gone: such a datagram is dropped.
    pub fn route_datagram(&self, datagram: &Bytes) -> (r: Option<u64>)
        ensures
            r == datagram_route(self@, wire::bytes_seq(*datagram), ENDPOINT_ID_SIZE),
    {
        let bytes = wire::as_slice(datagram);
        if bytes.len() >= ENDPOINT_ID_SIZE {
            let endpoint_id: u64 = wire::read_u64(bytes);
            if self.clients.contains(&endpoint_id) {
                return Some(endpoint_id);
            }
        }
        None
    }

    /// The endpoint that a datagram with a short id is for.
    pub fn route_short_datagram(&self, datagram: &Bytes) -> (r: Option<u64>)
        ensures
            r == datagram_route(self@, wire::bytes_seq(*datagram), SHORT_ENDPOINT_ID_SIZE),
    {
        let bytes = wire::as_slice(datagram);
        if bytes.len() >= SHORT_ENDPOINT_ID_SIZE {
            let endpoint_id: u64 = wire::read_u16(bytes) as u64;
            if self.clients.contains(&endpoint_id) {
                return Some(endpoint_id);
            }
        }
        None
    }
}

/// The id that a stream starts with.
pub fn parse_endpoint_id(buf: &[u8]) -> (r: u64)
    requires
        buf@.len() == ENDPOINT_ID_SIZE,
    ensures
        r == wire::be_value(buf@),
{
    assert(buf@.take(8) =~= buf@);
    wire::read_u64(buf)
}

/// The short id that a stream starts with.
pub fn parse_short_endpoint_id(buf: &[u8]) -> (r: u16)
    requires
        buf@.len() == SHORT_ENDPOINT_ID_SIZE,
    ensures
        r == wire::be_value(buf@),
{
    assert(buf@.take(2) =~= buf@);
    wire::read_u16(buf)
}

/// What a stream of an endpoint starts with.
pub fn endpoint_id_bytes(endpoint_id: u64) -> (r: [u8; 8])
    ensures
        r@ == wire::be_bytes(endpoint_id as nat, 8),
{
    let mut r: [u8; 8] = [0; 8];
    proof {
        wire::lemma_be_bytes_len(endpoint_id as nat, 8);
    }
    wire::write_u64(&mut r, endpoint_id);
    assert(r@ =~= wire::be_bytes(endpoint_id as nat, 8));
    r
}

/// What a stream of an endpoint starts with where ids are short.
pub fn short_endpoint_id_bytes(endpoint_id: u16) -> (r: [u8; 2])
    ensures
        r@ == wire::be_bytes(endpoint_id as nat, 2),
{
    let mut r: [u8; 2] = [0; 2];
    proof {
        wire::lemma_be_bytes_len(endpoint_id as nat, 2);
    }
    wire::write_u16(&mut r, endpoint_id);
    assert(r@ =~= wire::be_bytes(endpoint_id as nat, 2));
    r
}

/// The id that a stream starts with is read as it was written, be it long or short.
pub proof fn lemma_stream_reaches_its_endpoint(endpoint_id: u64, short_endpoint_id: u16)
    ensures
        wire::be_bytes(endpoint_id as nat, 8).len() == ENDPOINT_ID_SIZE,
        wire::be_value(wire::be_bytes(endpoint_id as nat, 8)) == endpoint_id,
        wire::be_bytes(short_endpoint_id as nat, 2).len() == SHORT_ENDPOINT_ID_SIZE,
        wire::be_value(wire::be_bytes(short_endpoint_id as nat, 2)) == short_endpoint_id,
{
    wire::lemma_pow_256();
    wire::lemma_be_bytes_len(endpoint_id as nat, 8);
    wire::lemma_be_bytes_len(short_endpoint_id as nat, 2);
    wire::lemma_decode_encode(endpoint_id as nat, 8);
    wire::lemma_decode_encode(short_endpoint_id as nat, 2);
}

/// Starts a datagram with the id of its endpoint.
pub fn write_datagram_header(endpoint_id: u64, buf: &mut BytesMut)
    requires
        wire::buffer_seq(*old(buf)).len() + 8 <= isize::MAX,
    ensures
        wire::buffer_seq(*final(buf)) == wire::buffer_seq(*old(buf)) + wire::be_bytes(
            endpoint_id as nat,
            8,
        ),
{
    wire::put_u64(buf, endpoint_id);
}

/// A datagram whose header an endpoint wrote is routed to that endpoint, as long
/// as it has a channel, whatever it carries.
pub proof fn lemma_datagram_reaches_its_endpoint(
    clients: Set<u64>,
    endpoint_id: u64,
    payload: Seq<u8>,
)
    ensures
        datagram_route(
            clients,
            wire::be_bytes(endpoint_id as nat, 8) + payload,
            ENDPOINT_ID_SIZE,
        ) == if clients.contains(endpoint_id) {
            Some(endpoint_id)
        } else {
            None
        },
{
    let datagram = wire::be_bytes(endpoint_id as nat, 8) + payload;
    wire::lemma_pow_256();
    wire::lemma_be_bytes_len(endpoint_id as nat, 8);
    wire::lemma_decode_encode(endpoint_id as nat, 8);
    assert(datagram.take(8) =~= wire::be_bytes(endpoint_id as nat, 8));
}

/// The same holds with a short id.
pub proof fn lemma_short_datagram_reaches_its_endpoint(
    clients: Set<u64>,
    endpoint_id: u16,
    payload: Seq<u8>,
)
    ensures
        datagram_route(
            clients,
            wire::be_bytes(endpoint_id as nat, 2) + payload,
            SHORT_ENDPOINT_ID_SIZE,
        ) == if clients.contains(endpoint_id as u64) {
            Some(endpoint_id as u64)
        } else {
            None
        },
{
    let datagram = wire::be_bytes(endpoint_id as nat, 2) + payload;
    wire::lemma_pow_256();
    wire::lemma_be_bytes_len(endpoint_id as nat, 2);
    wire::lemma_decode_encode(endpoint_id as nat, 2);
    assert(datagram.take(2) =~= wire::be_bytes(endpoint_id as nat, 2));
}

/// A datagram is routed nowhere but to the endpoint whose id it starts with, and only if
/// that has a channel. One that is too short for an id is routed nowhere.
pub proof fn lemma_datagram_reaches_no_other(clients: Set<u64>, datagram: Seq<u8>)
    ensures
        datagram.len() < 8 ==> datagram_route(clients, datagram, ENDPOINT_ID_SIZE) is None,
        datagram.len() < 2 ==> datagram_route(clients, datagram, SHORT_ENDPOINT_ID_SIZE) is None,
        datagram_route(clients, datagram, ENDPOINT_ID_SIZE) matches Some(id)
            ==> clients.contains(id) && wire::be_value(datagram.subrange(0, 8)) == id,
        datagram_route(clients, datagram, SHORT_ENDPOINT_ID_SIZE) matches Some(id)
            ==> clients.contains(id) && wire::be_value(datagram.subrange(0, 2)) == id,
{
    wire::lemma_pow_256();
    if datagram.len() >= 8 {
        assert(datagram.take(8) =~= datagram.subrange(0, 8));
        wire::lemma_encode_decode(datagram.take(8));
    }
    if datagram.len() >= 2 {
        assert(datagram.take(2) =~= datagram.subrange(0, 2));
        wire::lemma_encode_decode(datagram.take(2));
    }
}

} // verus!
