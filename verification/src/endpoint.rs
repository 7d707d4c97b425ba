//! Endpoints, and what it takes to start one.

use vstd::prelude::*;
use vstd::string::*;
use crate::error::Error;

verus! {

/// The side that opens the streams of an endpoint.
#[derive(Clone, Copy, Debug, PartialEq, Eq, Structural)]
pub enum StreamOwner {
    Local,
    Peer,
}

#[derive(Clone, Copy, Debug, PartialEq, Eq, Structural)]
pub enum StreamType {
    Video,
    Audio,
    Input,
}

/// How video is transmitted.
#[derive(Clone, Copy, Debug, PartialEq, Eq, Structural)]
pub enum VideoProtocol {
    Reliable,
    GopStream,
    Unreliable,
    UnreliableFec,
}

/// How audio is transmitted.
#[derive(Clone, Copy, Debug, PartialEq, Eq, Structural)]
pub enum AudioProtocol {
    Reliable,
}

#[derive(Clone, Copy, Debug, PartialEq, Eq, Structural)]
pub struct EndpointDesc {
    pub id: u16,
    pub owner: StreamOwner,
    pub type_: StreamType,
}

/// How the data of an endpoint is forwarded.
#[derive(Clone, Copy, Debug, PartialEq, Eq, Structural)]
pub enum ForwardProtocol {
    /// A bidirectional stream, as is.
    SimpleBi,
    /// A unidirectional stream, as is.
    SimpleUni,
    /// A stream for every group of pictures.
    GopStream,
    /// Datagrams.
    Unreliable,
    /// Datagrams with forward error correction.
    UnreliableFec,
}

impl EndpointDesc {
    pub open spec fn spec_protocol(self, video_protocol: VideoProtocol) -> ForwardProtocol {
        match self.type_ {
            StreamType::Input => ForwardProtocol::SimpleBi,
            StreamType::Audio => ForwardProtocol::SimpleUni,
            StreamType::Video => match video_protocol {
                VideoProtocol::Reliable => ForwardProtocol::SimpleUni,
                VideoProtocol::GopStream => ForwardProtocol::GopStream,
                VideoProtocol::Unreliable => ForwardProtocol::Unreliable,
                VideoProtocol::UnreliableFec => ForwardProtocol::UnreliableFec,
            },
        }
    }

    /// How to forward the endpoint's data, given how video is transmitted.
    pub fn protocol(&self, video_protocol: VideoProtocol) -> (r: ForwardProtocol)
        ensures
            r == self.spec_protocol(video_protocol),
    {
        match self.type_ {
            StreamType::Input => ForwardProtocol::SimpleBi,
            StreamType::Audio => ForwardProtocol::SimpleUni,
            StreamType::Video => match video_protocol {
                VideoProtocol::Reliable => ForwardProtocol::SimpleUni,
                VideoProtocol::GopStream => ForwardProtocol::GopStream,
                VideoProtocol::Unreliable => ForwardProtocol::Unreliable,
                VideoProtocol::UnreliableFec => ForwardProtocol::UnreliableFec,
            },
        }
    }
}

/// The stream type that a word on the command line names.
pub open spec fn spec_stream_type(word: Seq<char>) -> Option<StreamType> {
    if word == "video"@ {
        Some(StreamType::Video)
    } else if word == "audio"@ {
        Some(StreamType::Audio)
    } else {
        None
    }
}

/// The stream type that a word on the command line names, or what is wrong with
/// it.
pub fn parse_stream_type(word: &String) -> (r: Result<StreamType, String>)
    ensures
        match r {
            Ok(type_) => spec_stream_type(word@) == Some(type_),
            Err(text) => spec_stream_type(word@) is None && text@ == "Unexpected stream type: "@
                + word@,
        },
{
    proof {
        reveal_strlit("video");
        reveal_strlit("audio");
    }
    if *word == "video".to_owned() {
        Ok(StreamType::Video)
    } else if *word == "audio".to_owned() {
        Ok(StreamType::Audio)
    } else {
        let mut text = "Unexpected stream type: ".to_owned();
        text.append(word.as_str());
        Err(text)
    }
}

/// The stream types that the words name, in order, or what is wrong with the
/// first one that names none.
pub fn parse_stream_types(words: &Vec<String>) -> (r: Result<Vec<StreamType>, String>)
    ensures
        match r {
            Ok(types) => {
                &&& types@.len() == words@.len()
                &&& forall|i: int|
                    0 <= i < words@.len() ==> spec_stream_type((#[trigger] words@[i])@) == Some(
                        types@[i],
                    )
            },
            Err(text) => exists|i: int|
                {
                    &&& 0 <= i < words@.len()
                    &&& spec_stream_type((#[trigger] words@[i])@) is None
                    &&& text@ == "Unexpected stream type: "@ + words@[i]@
                    &&& forall|j: int|
                        0 <= j < i ==> spec_stream_type((#[trigger] words@[j])@) is Some
                },
        },
{
    let mut types: Vec<StreamType> = Vec::new();
    let mut i: usize = 0;
    while i < words.len()
        invariant
            i <= words.len(),
            types@.len() == i,
            forall|j: int|
                0 <= j < i ==> spec_stream_type((#[trigger] words@[j])@) == Some(types@[j]),
        decreases words.len() - i,
    {
        match parse_stream_type(&words[i]) {
            Ok(type_) => {
                types.push(type_);
            },
            Err(text) => {
                assert(spec_stream_type(words@[i as int]@) is None);
                return Err(text);
            },
        }
        i += 1;
    }
    Ok(types)
}

/// What an endpoint still waits for before it starts: its local client, the
/// peer's client, and its channel. Each comes once.
#[derive(Clone, Copy, Debug, PartialEq, Eq, Structural)]
pub struct EndpointBuilder {
    pub desc: EndpointDesc,
    pub has_client: bool,
    pub peer_client_connected: bool,
    pub has_ky_channel: bool,
}

impl EndpointBuilder {
    pub open spec fn spec_new(desc: EndpointDesc) -> EndpointBuilder {
        EndpointBuilder {
            desc,
            has_client: false,
            peer_client_connected: false,
            has_ky_channel: false,
        }
    }

    pub open spec fn is_ready(self) -> bool {
        self.peer_client_connected && self.has_client && self.has_ky_channel
    }

    pub fn new(desc: EndpointDesc) -> (r: Self)
        ensures
            r == Self::spec_new(desc),
    {
        EndpointBuilder {
            desc,
            has_client: false,
            peer_client_connected: false,
            has_ky_channel: false,
        }
    }

    /// The local client is there.
    pub fn set_client(&mut self) -> (r: Result<(), Error>)
        ensures
            match r {
                Ok(_) => !old(self).has_client && *final(self) == (EndpointBuilder {
                    has_client: true,
                    ..*old(self)
                }),
                Err(error) => old(self).has_client && error is FatalError && *final(self) == *old(
                    self,
                ),
            },
    {
        if self.has_client {
            return Err(Error::FatalError);
        }
        self.has_client = true;
        Ok(())
    }

    /// The peer says that its client is there.
    pub fn peer_client_connected(&mut self) -> (r: Result<(), Error>)
        ensures
            match r {
                Ok(_) => !old(self).peer_client_connected && *final(self) == (EndpointBuilder {
                    peer_client_connected: true,
                    ..*old(self)
                }),
                Err(error) => old(self).peer_client_connected && error is FatalError
                    && *final(self) == *old(self),
            },
    {
        if self.peer_client_connected {
            return Err(Error::FatalError);
        }
        self.peer_client_connected = true;
        Ok(())
    }

    /// The channel is there.
    pub fn set_ky_channel(&mut self) -> (r: Result<(), Error>)
        ensures
            match r {
                Ok(_) => !old(self).has_ky_channel && *final(self) == (EndpointBuilder {
                    has_ky_channel: true,
                    ..*old(self)
                }),
                Err(error) => old(self).has_ky_channel && error is FatalError && *final(self)
                    == *old(self),
            },
    {
        if self.has_ky_channel {
            return Err(Error::FatalError);
        }
        self.has_ky_channel = true;
        Ok(())
    }

    pub fn ready(&self) -> (r: bool)
        ensures
            r == self.is_ready(),
    {
        self.peer_client_connected && self.has_client && self.has_ky_channel
    }

    /// The endpoint to start, if nothing is missing.
    pub fn build(self) -> (r: Result<EndpointDesc, Error>)
        ensures
            match r {
                Ok(desc) => self.is_ready() && desc == self.desc,
                Err(error) => !self.is_ready() && error is EndpointBuilderNotReady,
            },
    {
        if !self.peer_client_connected || !self.has_client || !self.has_ky_channel {
            return Err(Error::EndpointBuilderNotReady);
        }
        Ok(self.desc)
    }
}

/// What a channel brings first.
#[derive(Clone, Copy, Debug, PartialEq, Eq, Structural)]
pub enum FirstMsg {
    AcceptUni,
    AcceptBi,
    Datagram,
}

/// How a simple endpoint gets its stream.
#[derive(Clone, Copy, Debug, PartialEq, Eq, Structural)]
pub enum StreamSource {
    Open,
    Accept,
}

/// The owner opens the stream, the other side accepts it.
pub fn stream_source(owner: StreamOwner) -> (r: StreamSource)
    ensures
        r == match owner {
            StreamOwner::Local => StreamSource::Open,
            StreamOwner::Peer => StreamSource::Accept,
        },
{
    match owner {
        StreamOwner::Local => StreamSource::Open,
        StreamOwner::Peer => StreamSource::Accept,
    }
}

/// Checks what came first on the channel of a simple endpoint that accepts its
/// stream.
pub fn check_first_msg(bidirectional: bool, msg: FirstMsg) -> (r: Result<(), Error>)
    ensures
        match r {
            Ok(_) => msg == if bidirectional {
                FirstMsg::AcceptBi
            } else {
                FirstMsg::AcceptUni
            },
            Err(error) => {
                &&& msg != if bidirectional {
                    FirstMsg::AcceptBi
                } else {
                    FirstMsg::AcceptUni
                }
                &&& error matches Error::KymuxProtocolError(text) && text@ == if bidirectional {
                    "Unexpected message, expected AcceptBi"@
                } else {
                    "Unexpected message, expected AcceptUni"@
                }
            },
        },
{
    match (bidirectional, msg) {
        (true, FirstMsg::AcceptBi) => Ok(()),
        (false, FirstMsg::AcceptUni) => Ok(()),
        (true, _) => Err(
            Error::KymuxProtocolError("Unexpected message, expected AcceptBi".to_owned()),
        ),
        (false, _) => Err(
            Error::KymuxProtocolError("Unexpected message, expected AcceptUni".to_owned()),
        ),
    }
}

/// The side that accepted the connection gives even ids.
pub const INITIATOR_SERVER: u16 = 0;

/// The side that connected gives odd ids.
pub const INITIATOR_CLIENT: u16 = 1;

/// Gives ids to endpoints. Both sides do: the lowest bit says which one.
#[derive(Debug)]
pub struct EndpointIds {
    pub next_endpoint_index: u16,
    pub initiator: u16,
}

/// The id that the side `initiator` gives for its `index`-th endpoint. The ids
/// of a side start over after 2^15 endpoints.
pub open spec fn spec_id(index: u16, initiator: u16) -> int {
    (2 * index) % 0x1_0000 + initiator
}

impl EndpointIds {
    pub open spec fn wf(self) -> bool {
        self.initiator == INITIATOR_SERVER || self.initiator == INITIATOR_CLIENT
    }

    pub fn new(initiator: u16) -> (r: Self)
        requires
            initiator == INITIATOR_SERVER || initiator == INITIATOR_CLIENT,
        ensures
            r.wf(),
            r.initiator == initiator,
            r.next_endpoint_index == 0,
    {
        EndpointIds { next_endpoint_index: 0, initiator }
    }

    /// The id that the caller wants, or the next one.
    pub fn get_endpoint_id(&mut self, id: Option<u16>) -> (r: u16)
        requires
            old(self).wf(),
        ensures
            final(self).initiator == old(self).initiator,
            match id {
                Some(id) => r == id && *final(self) == *old(self),
                None => {
                    &&& r == spec_id(old(self).next_endpoint_index, old(self).initiator)
                    &&& final(self).next_endpoint_index == (old(self).next_endpoint_index + 1)
                        % 0x1_0000
                },
            },
    {
        match id {
            Some(id) => id,
            None => {
                let index: u16 = self.next_endpoint_index;
                let initiator: u16 = self.initiator;
                self.next_endpoint_index = index.wrapping_add(1);
                assert((index << 1) | initiator == (2 * index) % 0x1_0000 + initiator)
                    by (bit_vector)
                    requires
                        initiator == 0 || initiator == 1,
                ;
                (index << 1) | initiator
            },
        }
    }
}

/// The two sides never give the same id.
pub proof fn lemma_sides_do_not_collide(i: u16, j: u16)
    ensures
        spec_id(i, INITIATOR_SERVER) != spec_id(j, INITIATOR_CLIENT),
{
    assert(spec_id(i, INITIATOR_SERVER) % 2 == 0);
    assert(spec_id(j, INITIATOR_CLIENT) % 2 == 1);
}

/// A side does not give an id twice before it has given 2^15.
pub proof fn lemma_ids_are_distinct(i: u16, j: u16, initiator: u16)
    requires
        i < j < i + 0x8000,
    ensures
        spec_id(i, initiator) != spec_id(j, initiator),
{
}

/// How many ports are tried for local clients.
pub const KYMUX_LOCAL_CLIENTS_RANGE: u16 = 10;

/// The ports to try for local clients, one after the other.
#[derive(Debug)]
pub struct LocalPorts {
    pub base: u16,
    pub tried: u16,
}

impl LocalPorts {
    pub fn new(base: u16) -> (r: Self)
        ensures
            r.base == base,
            r.tried == 0,
    {
        LocalPorts { base, tried: 0 }
    }

    /// The next port to try.
    pub fn next_port(&mut self) -> (r: Result<u16, Error>)
        requires
            old(self).tried < KYMUX_LOCAL_CLIENTS_RANGE ==> old(self).base + old(self).tried
                <= u16::MAX,
        ensures
            final(self).base == old(self).base,
            match r {
                Ok(port) => {
                    &&& old(self).tried < KYMUX_LOCAL_CLIENTS_RANGE
                    &&& port == old(self).base + old(self).tried
                    &&& final(self).tried == old(self).tried + 1
                },
                Err(error) => {
                    &&& old(self).tried >= KYMUX_LOCAL_CLIENTS_RANGE
                    &&& error is IpcNoPortAvailable
                    &&& *final(self) == *old(self)
                },
            },
            r is Ok <==> old(self).tried < 10,
    {
        if self.tried >= KYMUX_LOCAL_CLIENTS_RANGE {
            return Err(Error::IpcNoPortAvailable);
        }
        let port: u16 = self.base + self.tried;
        self.tried = self.tried + 1;
        Ok(port)
    }
}

/// How data is forwarded depends on the stream type, and for video alone on how video is
/// transmitted. Only input goes both ways. No two ways to transmit video are forwarded
/// alike, and a reliable one is forwarded as audio is.
pub proof fn lemma_protocols(a: EndpointDesc, b: EndpointDesc, v: VideoProtocol, w: VideoProtocol)
    ensures
        a.spec_protocol(v) == ForwardProtocol::SimpleBi <==> a.type_ == StreamType::Input,
        a.type_ == StreamType::Audio ==> a.spec_protocol(v) == ForwardProtocol::SimpleUni,
        a.type_ == StreamType::Video ==> {
            &&& a.spec_protocol(v) == ForwardProtocol::SimpleUni <==> v == VideoProtocol::Reliable
            &&& a.spec_protocol(v) == ForwardProtocol::GopStream <==> v
                == VideoProtocol::GopStream
            &&& a.spec_protocol(v) == ForwardProtocol::Unreliable <==> v
                == VideoProtocol::Unreliable
            &&& a.spec_protocol(v) == ForwardProtocol::UnreliableFec <==> v
                == VideoProtocol::UnreliableFec
        },
        a.type_ == b.type_ ==> a.spec_protocol(v) == b.spec_protocol(v),
        a.type_ == StreamType::Video && a.spec_protocol(v) == a.spec_protocol(w) ==> v == w,
        a.type_ != StreamType::Video ==> a.spec_protocol(v) == a.spec_protocol(w),
{
}

/// Two words name stream types on the command line, each its own, and no other word does.
pub proof fn lemma_stream_type_words(word: Seq<char>)
    ensures
        spec_stream_type(word) == Some(StreamType::Video) <==> word == seq![
            'v',
            'i',
            'd',
            'e',
            'o',
        ],
        spec_stream_type(word) == Some(StreamType::Audio) <==> word == seq![
            'a',
            'u',
            'd',
            'i',
            'o',
        ],
        spec_stream_type(word) != Some(StreamType::Input),
{
    reveal_strlit("video");
    reveal_strlit("audio");
    assert("video"@ =~= seq!['v', 'i', 'd', 'e', 'o']);
    assert("audio"@ =~= seq!['a', 'u', 'd', 'i', 'o']);
    assert("video"@[0] != "audio"@[0]);
}

/// An endpoint starts out waiting for everything, and is ready once its client, the peer's
/// client and its channel are there, whatever came first; not before.
pub proof fn lemma_ready_when_nothing_is_missing(desc: EndpointDesc, builder: EndpointBuilder)
    ensures
        ({
            let new = EndpointBuilder::spec_new(desc);
            &&& new.desc == desc
            &&& !new.has_client
            &&& !new.peer_client_connected
            &&& !new.has_ky_channel
            &&& !new.is_ready()
            &&& !(EndpointBuilder { has_client: false, ..builder }).is_ready()
            &&& !(EndpointBuilder { peer_client_connected: false, ..builder }).is_ready()
            &&& !(EndpointBuilder { has_ky_channel: false, ..builder }).is_ready()
            &&& (EndpointBuilder {
                has_client: true,
                peer_client_connected: true,
                has_ky_channel: true,
                ..builder
            }).is_ready()
        }),
{
}

/// Ids have 16 bits. The side that accepted the connection gives even ones and the side
/// that connected odd ones, each from its lowest on, in steps of two.
pub proof fn lemma_ids_in_order(index: u16)
    requires
        index < 0x7FFF,
    ensures
        spec_id(0, INITIATOR_SERVER) == 0,
        spec_id(0, INITIATOR_CLIENT) == 1,
        spec_id((index + 1) as u16, INITIATOR_SERVER) == spec_id(index, INITIATOR_SERVER) + 2,
        spec_id((index + 1) as u16, INITIATOR_CLIENT) == spec_id(index, INITIATOR_CLIENT) + 2,
        0 <= spec_id(index, INITIATOR_SERVER) < 0x1_0000,
        0 <= spec_id(index, INITIATOR_CLIENT) < 0x1_0000,
        spec_id(index, INITIATOR_SERVER) % 2 == 0,
        spec_id(index, INITIATOR_CLIENT) % 2 == 1,
{
}

/// After 2^15 endpoints the ids of a side start over.
pub proof fn lemma_ids_start_over(index: u16, initiator: u16)
    requires
        index < 0x8000,
    ensures
        spec_id((index + 0x8000) as u16, initiator) == spec_id(index, initiator),
{
}

} // verus!
