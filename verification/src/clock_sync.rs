//! Clock synchronisation.
//!
//! The client sends the time of its clock, the server adds the times of
//! reception and emission on its own clock, and the client notes the time of
//! reception. All times are in microseconds.

use vstd::prelude::*;
use bytes::Bytes;
use crate::error::ProtocolError;
use crate::wire;

verus! {

/// How long a request waits for its response.
pub const TIMEOUT_MICROS: u64 = 200_000;

/// Half of `x`, rounded towards zero.
pub open spec fn half(x: int) -> int {
    if x >= 0 {
        x / 2
    } else {
        -((-x) / 2)
    }
}

#[derive(Clone, Copy, Debug, PartialEq, Eq, Structural)]
pub struct ClockSyncResult {
    /// Client emission.
    pub t1: i64,
    /// Server reception.
    pub t2: i64,
    /// Server emission.
    pub t3: i64,
    /// Client reception.
    pub t4: i64,
}

impl ClockSyncResult {
    pub fn new(t1: u64, t2: u64, t3: u64, t4: u64) -> (r: Self)
        requires
            t1 <= i64::MAX,
            t2 <= i64::MAX,
            t3 <= i64::MAX,
            t4 <= i64::MAX,
        ensures
            r.t1 == t1,
            r.t2 == t2,
            r.t3 == t3,
            r.t4 == t4,
    {
        ClockSyncResult { t1: t1 as i64, t2: t2 as i64, t3: t3 as i64, t4: t4 as i64 }
    }

    /// By how much the server's clock is ahead.
    pub open spec fn spec_offset(self) -> int {
        half(self.t2 - self.t1 + self.t3 - self.t4)
    }

    /// How long the request and the response were on their way.
    pub open spec fn spec_delay(self) -> int {
        (self.t4 - self.t1) - (self.t3 - self.t2)
    }

    pub fn offset_micros(&self) -> (r: i64)
        requires
            i64::MIN <= self.t2 - self.t1 <= i64::MAX,
            i64::MIN <= self.t2 - self.t1 + self.t3 <= i64::MAX,
            i64::MIN <= self.t2 - self.t1 + self.t3 - self.t4 <= i64::MAX,
        ensures
            r == self.spec_offset(),
    {
        let sum: i64 = self.t2 - self.t1 + self.t3 - self.t4;
        if sum >= 0 {
            sum / 2
        } else if sum == i64::MIN {
            -0x4000_0000_0000_0000
        } else {
            -((-sum) / 2)
        }
    }

    pub fn delay_micros(&self) -> (r: i64)
        requires
            i64::MIN <= self.t4 - self.t1 <= i64::MAX,
            i64::MIN <= self.t3 - self.t2 <= i64::MAX,
            i64::MIN <= self.spec_delay() <= i64::MAX,
        ensures
            r == self.spec_delay(),
    {
        (self.t4 - self.t1) - (self.t3 - self.t2)
    }
}

/// A request on the wire: endpoint id (16 bits), request id (32 bits), client
/// emission time (64 bits).
pub open spec fn request_bytes(endpoint_id: u16, req_id: u32, t1: u64) -> Seq<u8> {
    wire::be_bytes(endpoint_id as nat, 2) + wire::be_bytes(req_id as nat, 4) + wire::be_bytes(
        t1 as nat,
        8,
    )
}

/// A response on the wire: the request, then server reception and emission times
/// (64 bits each).
pub open spec fn response_bytes(request: Seq<u8>, t2: u64, t3: u64) -> Seq<u8> {
    request + wire::be_bytes(t2 as nat, 8) + wire::be_bytes(t3 as nat, 8)
}

/// The endpoint that a response is for.
pub open spec fn response_endpoint(response: Seq<u8>) -> nat {
    wire::be_value(response.take(2))
}

/// The request that a response answers.
pub open spec fn response_id(response: Seq<u8>) -> nat {
    wire::be_value(response.subrange(2, 6))
}

/// The times in a response, in the order in which they were taken.
pub open spec fn response_times(response: Seq<u8>) -> (nat, nat, nat) {
    (
        wire::be_value(response.subrange(6, 14)),
        wire::be_value(response.subrange(14, 22)),
        wire::be_value(response.subrange(22, 30)),
    )
}

/// A request that waits for its response.
#[derive(Clone, Copy, Debug, PartialEq, Eq, Structural)]
pub struct ClockSyncRequest {
    pub endpoint_id: u16,
    pub req_id: u32,
    pub deadline: u64,
}

/// The client side.
#[derive(Debug)]
pub struct ClockSyncClientProtocol {
    pub next_id: u32,
}

impl ClockSyncClientProtocol {
    pub fn new() -> (r: Self)
        ensures
            r.next_id == 0,
    {
        ClockSyncClientProtocol { next_id: 0 }
    }

    /// Starts a request at time `t1`: gives what to wait for and what to send.
    pub fn sync(&mut self, endpoint_id: u16, t1: u64) -> (r: (ClockSyncRequest, Bytes))
        requires
            t1 <= i64::MAX,
        ensures
            final(self).next_id == (old(self).next_id + 1) % 0x1_0000_0000,
            r.0 == (ClockSyncRequest {
                endpoint_id,
                req_id: old(self).next_id,
                deadline: (t1 + TIMEOUT_MICROS) as u64,
            }),
            r.0.deadline == t1 + 200_000,
            wire::bytes_seq(r.1) == request_bytes(endpoint_id, old(self).next_id, t1),
    {
        let req_id: u32 = self.next_id;
        self.next_id = self.next_id.wrapping_add(1);
        proof {
            wire::lemma_be_bytes_len(endpoint_id as nat, 2);
            wire::lemma_be_bytes_len(req_id as nat, 4);
            wire::lemma_be_bytes_len(t1 as nat, 8);
        }
        let mut buf = wire::buffer_with_capacity(14);
        wire::put_u16(&mut buf, endpoint_id);
        wire::put_u32(&mut buf, req_id);
        wire::put_u64(&mut buf, t1);
        assert(wire::buffer_seq(buf) =~= request_bytes(endpoint_id, req_id, t1));
        (ClockSyncRequest { endpoint_id, req_id, deadline: t1 + TIMEOUT_MICROS }, wire::freeze(buf))
    }
}

impl ClockSyncRequest {
    /// How long to wait at time `now`; nothing if the request has timed out.
    pub fn timeout(&self, now: u64) -> (r: Option<u64>)
        ensures
            r == if now >= self.deadline {
                None
            } else {
                Some((self.deadline - now) as u64)
            },
    {
        if now >= self.deadline {
            None
        } else {
            Some(self.deadline - now)
        }
    }

    /// The response is for this endpoint, and its times are not too large where
    /// it answers this request.
    pub open spec fn accepts(self, response: Seq<u8>) -> bool {
        &&& response.len() == 30
        &&& response_endpoint(response) == self.endpoint_id
        &&& response_id(response) == self.req_id ==> {
            let (t1, t2, t3) = response_times(response);
            t1 <= i64::MAX && t2 <= i64::MAX && t3 <= i64::MAX
        }
    }

    /// Takes a response that was received at time `t4`. A response to another
    /// request gives nothing.
    pub fn on_response(&self, response: Bytes, t4: u64) -> (r: Option<ClockSyncResult>)
        requires
            self.accepts(wire::bytes_seq(response)),
            t4 <= i64::MAX,
        ensures
            ({
                let bytes = wire::bytes_seq(response);
                match r {
                    None => response_id(bytes) != self.req_id,
                    Some(result) => {
                        &&& response_id(bytes) == self.req_id
                        &&& (result.t1 as nat, result.t2 as nat, result.t3 as nat)
                            == response_times(bytes)
                        &&& result.t1 >= 0 && result.t2 >= 0 && result.t3 >= 0
                        &&& result.t4 == t4
                    },
                }
            }),
    {
        let ghost all = wire::bytes_seq(response);
        let mut response = response;
        let _endpoint_id: u16 = wire::get_u16(&mut response);
        let id: u32 = wire::get_u32(&mut response);
        assert(all.skip(2).take(4) =~= all.subrange(2, 6));
        if id != self.req_id {
            return None;
        }
        let t1: u64 = wire::get_u64(&mut response);
        let t2: u64 = wire::get_u64(&mut response);
        let t3: u64 = wire::get_u64(&mut response);
        assert(all.skip(2).skip(4).take(8) =~= all.subrange(6, 14));
        assert(all.skip(2).skip(4).skip(8).take(8) =~= all.subrange(14, 22));
        assert(all.skip(2).skip(4).skip(8).skip(8).take(8) =~= all.subrange(22, 30));
        Some(ClockSyncResult::new(t1, t2, t3, t4))
    }

    /// Whether the response can be taken.
    pub fn accepts_response(&self, response: &Bytes) -> (r: bool)
        ensures
            r == self.accepts(wire::bytes_seq(*response)),
    {
        let bytes = wire::as_slice(response);
        if bytes.len() != 30 || wire::read_u16(bytes) != self.endpoint_id {
            return false;
        }
        let id: u32 = wire::read_u32(&bytes[2..6]);
        let t1: u64 = wire::read_u64(&bytes[6..14]);
        let t2: u64 = wire::read_u64(&bytes[14..22]);
        let t3: u64 = wire::read_u64(&bytes[22..30]);
        proof {
            let b = bytes@;
            assert(b.subrange(2, 6).take(4) =~= b.subrange(2, 6));
            assert(b.subrange(6, 14).take(8) =~= b.subrange(6, 14));
            assert(b.subrange(14, 22).take(8) =~= b.subrange(14, 22));
            assert(b.subrange(22, 30).take(8) =~= b.subrange(22, 30));
        }
        let max: u64 = 0x7FFF_FFFF_FFFF_FFFF;
        id != self.req_id || (t1 <= max && t2 <= max && t3 <= max)
    }
}

/// The server side.
#[derive(Debug)]
pub struct ClockSyncServerProtocol;

impl ClockSyncServerProtocol {
    /// Answers a request that was received at time `t2`, at time `t3`.
    pub fn serve(request: &Bytes, t2: u64, t3: u64) -> (response: Bytes)
        requires
            wire::bytes_seq(*request).len() == 14,
        ensures
            wire::bytes_seq(response) == response_bytes(wire::bytes_seq(*request), t2, t3),
    {
        proof {
            wire::lemma_be_bytes_len(t2 as nat, 8);
            wire::lemma_be_bytes_len(t3 as nat, 8);
        }
        let mut buf = wire::buffer_with_capacity(30);
        wire::put_slice(&mut buf, wire::as_slice(request));
        wire::put_u64(&mut buf, t2);
        wire::put_u64(&mut buf, t3);
        assert(wire::buffer_seq(buf) =~= response_bytes(wire::bytes_seq(*request), t2, t3));
        wire::freeze(buf)
    }
}

/// The time in microseconds, given what the clock says: nothing if it is set
/// before its epoch.
pub fn now_micros(clock: Option<u128>) -> (r: Result<u64, ProtocolError>)
    ensures
        match r {
            Ok(now) => clock == Some(now as u128) && now <= i64::MAX,
            Err(error) => match clock {
                None => error.0@ == "Timestamp failed"@,
                Some(micros) => micros > i64::MAX && error.0@ == "Invalid 63-bit timestamp"@,
            },
        },
{
    match clock {
        None => Err(ProtocolError::new("Timestamp failed")),
        Some(micros) => {
            if micros > 0x7FFF_FFFF_FFFF_FFFF {
                Err(ProtocolError::new("Invalid 63-bit timestamp"))
            } else {
                Ok(micros as u64)
            }
        },
    }
}

/// A response gives back the request's id and time and the server's times.
pub proof fn lemma_exchange_roundtrip(endpoint_id: u16, req_id: u32, t1: u64, t2: u64, t3: u64)
    ensures
        request_bytes(endpoint_id, req_id, t1).len() == 14,
        ({
            let response = response_bytes(request_bytes(endpoint_id, req_id, t1), t2, t3);
            &&& response.len() == 30
            &&& response_endpoint(response) == endpoint_id
            &&& response_id(response) == req_id
            &&& response_times(response) == (t1 as nat, t2 as nat, t3 as nat)
        }),
{
    let request = request_bytes(endpoint_id, req_id, t1);
    let response = response_bytes(request, t2, t3);
    wire::lemma_pow_256();
    wire::lemma_be_bytes_len(endpoint_id as nat, 2);
    wire::lemma_be_bytes_len(req_id as nat, 4);
    wire::lemma_be_bytes_len(t1 as nat, 8);
    wire::lemma_be_bytes_len(t2 as nat, 8);
    wire::lemma_be_bytes_len(t3 as nat, 8);
    wire::lemma_decode_encode(endpoint_id as nat, 2);
    wire::lemma_decode_encode(req_id as nat, 4);
    wire::lemma_decode_encode(t1 as nat, 8);
    wire::lemma_decode_encode(t2 as nat, 8);
    wire::lemma_decode_encode(t3 as nat, 8);
    assert(response.take(2) =~= wire::be_bytes(endpoint_id as nat, 2));
    assert(response.subrange(2, 6) =~= wire::be_bytes(req_id as nat, 4));
    assert(response.subrange(6, 14) =~= wire::be_bytes(t1 as nat, 8));
    assert(response.subrange(14, 22) =~= wire::be_bytes(t2 as nat, 8));
    assert(response.subrange(22, 30) =~= wire::be_bytes(t3 as nat, 8));
}

/// If the server's clock is `ahead`, the request took `there` and the response
/// took `back`, then the delay is exactly the time on the way, and the offset is
/// right up to half the difference of the two ways; it is exact when both took
/// the same time.
pub proof fn lemma_offset_and_delay(
    result: ClockSyncResult,
    ahead: int,
    there: int,
    back: int,
)
    requires
        result.t2 == result.t1 + there + ahead,
        result.t4 == result.t3 - ahead + back,
    ensures
        result.spec_delay() == there + back,
        result.spec_offset() == half(2 * ahead + (there - back)),
        there == back ==> result.spec_offset() == ahead,
{
}

/// A request and a response on the wire: the endpoint id in two bytes, the request id in
/// four and the client's time in eight; the response repeats them, and adds the server's
/// two times in eight bytes each.
pub proof fn lemma_exchange_layout(endpoint_id: u16, req_id: u32, t1: u64, t2: u64, t3: u64)
    ensures
        ({
            let request = request_bytes(endpoint_id, req_id, t1);
            let response = response_bytes(request, t2, t3);
            &&& request.len() == 14
            &&& wire::be_value(request.subrange(0, 2)) == endpoint_id
            &&& wire::be_value(request.subrange(2, 6)) == req_id
            &&& wire::be_value(request.subrange(6, 14)) == t1
            &&& response.len() == 30
            &&& response.take(14) == request
            &&& wire::be_value(response.subrange(14, 22)) == t2
            &&& wire::be_value(response.subrange(22, 30)) == t3
        }),
{
    let request = request_bytes(endpoint_id, req_id, t1);
    let response = response_bytes(request, t2, t3);
    wire::lemma_pow_256();
    wire::lemma_be_bytes_len(endpoint_id as nat, 2);
    wire::lemma_be_bytes_len(req_id as nat, 4);
    wire::lemma_be_bytes_len(t1 as nat, 8);
    wire::lemma_be_bytes_len(t2 as nat, 8);
    wire::lemma_be_bytes_len(t3 as nat, 8);
    wire::lemma_decode_encode(endpoint_id as nat, 2);
    wire::lemma_decode_encode(req_id as nat, 4);
    wire::lemma_decode_encode(t1 as nat, 8);
    wire::lemma_decode_encode(t2 as nat, 8);
    wire::lemma_decode_encode(t3 as nat, 8);
    assert(request.subrange(0, 2) =~= wire::be_bytes(endpoint_id as nat, 2));
    assert(request.subrange(2, 6) =~= wire::be_bytes(req_id as nat, 4));
    assert(request.subrange(6, 14) =~= wire::be_bytes(t1 as nat, 8));
    assert(response.take(14) =~= request);
    assert(response.subrange(14, 22) =~= wire::be_bytes(t2 as nat, 8));
    assert(response.subrange(22, 30) =~= wire::be_bytes(t3 as nat, 8));
}

/// The offset is half of what the two ways differ by, to less than one microsecond, and
/// never further from zero than that. The delay is what is left of the client's time once
/// the server's is taken off.
pub proof fn lemma_offset_is_half(result: ClockSyncResult)
    ensures
        ({
            let sum = (result.t2 - result.t1) - (result.t4 - result.t3);
            let twice = 2 * result.spec_offset();
            &&& sum >= 0 ==> sum - 1 <= twice <= sum
            &&& sum <= 0 ==> sum <= twice <= sum + 1
            &&& result.spec_delay() + (result.t3 - result.t2) == result.t4 - result.t1
        }),
{
}

/// If two results differ by how far the server's clock is ahead alone, their offsets
/// differ by the same, as long as the ways differ by an even number of microseconds, and
/// their delays are the same.
pub proof fn lemma_offset_follows_clock(a: ClockSyncResult, b: ClockSyncResult, ahead: int)
    requires
        b.t1 == a.t1,
        b.t2 == a.t2 + ahead,
        b.t3 == a.t3 + ahead,
        b.t4 == a.t4,
        ((a.t2 - a.t1) + (a.t3 - a.t4)) % 2 == 0,
    ensures
        b.spec_offset() == a.spec_offset() + ahead,
        b.spec_delay() == a.spec_delay(),
{
}

/// A request takes the answer to itself, with times of 63 bits, and answers to other
/// requests of its endpoint; nothing else.
pub proof fn lemma_what_a_request_takes(
    request: ClockSyncRequest,
    endpoint_id: u16,
    req_id: u32,
    t1: u64,
    t2: u64,
    t3: u64,
    extra: Seq<u8>,
)
    ensures
        ({
            let response = response_bytes(request_bytes(endpoint_id, req_id, t1), t2, t3);
            request.accepts(response + extra) <==> {
                &&& extra.len() == 0
                &&& endpoint_id == request.endpoint_id
                &&& req_id == request.req_id ==> t1 < 0x8000_0000_0000_0000 && t2
                    < 0x8000_0000_0000_0000 && t3 < 0x8000_0000_0000_0000
            }
        }),
{
    lemma_exchange_roundtrip(endpoint_id, req_id, t1, t2, t3);
    let response = response_bytes(request_bytes(endpoint_id, req_id, t1), t2, t3);
    if extra.len() == 0 {
        assert(response + extra =~= response);
    }
}

} // verus!
