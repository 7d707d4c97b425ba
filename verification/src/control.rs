//! Negotiation of endpoints between two multiplexers, and between a multiplexer
//! and its local clients.

use vstd::prelude::*;
use std::collections::{HashMap, HashSet};
use crate::endpoint::{EndpointBuilder, EndpointDesc, StreamOwner, StreamType};
use crate::error::Error;
use crate::router::Router;

verus! {

broadcast use vstd::std_specs::hash::group_hash_axioms;

#[derive(Clone, Copy, Debug, PartialEq, Eq, Structural)]
pub enum ControlMsg {
    Authenticate,
    ConnectionAccepted,
    RegisterEndpoint { id: u16, type_: StreamType },
    EndpointRegistered { endpoint_id: u16 },
    ClientConnected { endpoint_id: u16 },
}

/// What a control message leads to.
#[derive(Clone, Copy, Debug, PartialEq, Eq, Structural)]
pub enum ControlAction {
    /// Send this message to the peer.
    Send(ControlMsg),
    /// Tell whoever registered the endpoint that the peer knows it.
    NotifyRegistered(u16),
    /// Start the endpoint.
    Start(EndpointDesc),
    /// Wait for what the endpoint still lacks.
    Wait,
}

/// What a client that connects leads to.
#[derive(Clone, Copy, Debug, PartialEq, Eq, Structural)]
pub enum ClientAction {
    /// Nobody waits for this client.
    Ignore,
    /// Tell the peer, then see whether the endpoint can start.
    Notify(ControlMsg),
}

/// The endpoints that are not started yet, and those of them that the peer does
/// not know yet.
#[verifier::ext_equal]
pub struct StateView {
    pub endpoint_builders: Map<u16, EndpointBuilder>,
    pub pending_endpoints: Set<u16>,
}

pub struct State {
    endpoint_builders: HashMap<u16, EndpointBuilder>,
    pending_endpoints: HashSet<u16>,
}

impl View for State {
    type V = StateView;

    closed spec fn view(&self) -> StateView {
        StateView {
            endpoint_builders: self.endpoint_builders@,
            pending_endpoints: self.pending_endpoints@,
        }
    }
}

impl StateView {
    /// An endpoint that lacks nothing starts and is forgotten; another one stays.
    pub open spec fn started(self, id: u16) -> (StateView, ControlAction) {
        if self.endpoint_builders.contains_key(id) && self.endpoint_builders[id].is_ready() {
            (
                StateView { endpoint_builders: self.endpoint_builders.remove(id), ..self },
                ControlAction::Start(self.endpoint_builders[id].desc),
            )
        } else {
            (self, ControlAction::Wait)
        }
    }

    /// The endpoint of the peer with this number and type.
    pub open spec fn with_peer_endpoint(self, id: u16, type_: StreamType) -> StateView {
        StateView {
            endpoint_builders: self.endpoint_builders.insert(
                id,
                EndpointBuilder::spec_new(EndpointDesc { id, owner: StreamOwner::Peer, type_ }),
            ),
            ..self
        }
    }

    /// The peer's client of an endpoint is there.
    pub open spec fn with_peer_client(self, id: u16) -> StateView {
        StateView {
            endpoint_builders: self.endpoint_builders.insert(
                id,
                EndpointBuilder { peer_client_connected: true, ..self.endpoint_builders[id] },
            ),
            ..self
        }
    }

    /// One control message.
    pub open spec fn handled(
        self,
        msg: ControlMsg,
        after: StateView,
        r: Result<ControlAction, Error>,
    ) -> bool {
        match msg {
            // Only makes sense before the connection is set up.
            ControlMsg::Authenticate => after == self && (r matches Err(
                Error::InvalidControlMsg,
            )),
            ControlMsg::ConnectionAccepted => after == self && (r matches Err(
                Error::InvalidControlMsg,
            )),
            // The peer has a new endpoint: it is acknowledged.
            ControlMsg::RegisterEndpoint { id, type_ } => {
                &&& after == self.with_peer_endpoint(id, type_)
                &&& r == Ok::<ControlAction, Error>(
                    ControlAction::Send(ControlMsg::EndpointRegistered { endpoint_id: id }),
                )
            },
            // The peer has acknowledged an endpoint: it must be waiting for that.
            ControlMsg::EndpointRegistered { endpoint_id } => if self.pending_endpoints.contains(
                endpoint_id,
            ) {
                &&& after == (StateView {
                    pending_endpoints: self.pending_endpoints.remove(endpoint_id),
                    ..self
                })
                &&& r == Ok::<ControlAction, Error>(ControlAction::NotifyRegistered(endpoint_id))
            } else {
                after == self && (r matches Err(Error::InvalidControlMsg))
            },
            // The peer's client is there: once per endpoint.
            ControlMsg::ClientConnected { endpoint_id } => if !self.endpoint_builders.contains_key(
                endpoint_id,
            ) {
                after == self && (r matches Err(Error::InvalidControlMsg))
            } else if self.endpoint_builders[endpoint_id].peer_client_connected {
                after == self && (r matches Err(Error::FatalError))
            } else {
                let (state, action) = self.with_peer_client(endpoint_id).started(endpoint_id);
                after == state && r == Ok::<ControlAction, Error>(action)
            },
        }
    }
}

impl State {
    pub fn new() -> (r: Self)
        ensures
            r@.endpoint_builders == Map::<u16, EndpointBuilder>::empty(),
            r@.pending_endpoints == Set::<u16>::empty(),
    {
        State { endpoint_builders: HashMap::new(), pending_endpoints: HashSet::new() }
    }

    /// Registers an endpoint of this side: it waits for the peer to acknowledge
    /// the message.
    pub fn register_endpoint(&mut self, id: u16, type_: StreamType) -> (msg: ControlMsg)
        ensures
            final(self)@.endpoint_builders == old(self)@.endpoint_builders.insert(
                id,
                EndpointBuilder::spec_new(EndpointDesc { id, owner: StreamOwner::Local, type_ }),
            ),
            final(self)@.pending_endpoints == old(self)@.pending_endpoints.insert(id),
            msg == (ControlMsg::RegisterEndpoint { id, type_ }),
    {
        self.endpoint_builders.insert(
            id,
            EndpointBuilder::new(EndpointDesc { id, owner: StreamOwner::Local, type_ }),
        );
        self.pending_endpoints.insert(id);
        ControlMsg::RegisterEndpoint { id, type_ }
    }

    /// Starts an endpoint if it lacks nothing.
    pub fn start_endpoint(&mut self, id: u16) -> (r: ControlAction)
        ensures
            final(self)@ == old(self)@.started(id).0,
            r == old(self)@.started(id).1,
    {
        let builder = match self.endpoint_builders.get(&id) {
            None => {
                return ControlAction::Wait;
            },
            Some(builder) => *builder,
        };
        match builder.build() {
            Ok(desc) => {
                self.endpoint_builders.remove(&id);
                ControlAction::Start(desc)
            },
            Err(_) => ControlAction::Wait,
        }
    }

    /// Handles a message from the peer.
    pub fn handle_msg(&mut self, msg: ControlMsg) -> (r: Result<ControlAction, Error>)
        ensures
            old(self)@.handled(msg, final(self)@, r),
    {
        match msg {
            ControlMsg::Authenticate => Err(Error::InvalidControlMsg),
            ControlMsg::ConnectionAccepted => Err(Error::InvalidControlMsg),
            ControlMsg::RegisterEndpoint { id, type_ } => {
                let builder = EndpointBuilder::new(
                    EndpointDesc { id, owner: StreamOwner::Peer, type_ },
                );
                self.endpoint_builders.insert(id, builder);
                Ok(ControlAction::Send(ControlMsg::EndpointRegistered { endpoint_id: id }))
            },
            ControlMsg::EndpointRegistered { endpoint_id } => {
                if self.pending_endpoints.remove(&endpoint_id) {
                    Ok(ControlAction::NotifyRegistered(endpoint_id))
                } else {
                    assert(self@ =~= old(self)@);
                    Err(Error::InvalidControlMsg)
                }
            },
            ControlMsg::ClientConnected { endpoint_id } => {
                let mut builder = match self.endpoint_builders.get(&endpoint_id) {
                    None => {
                        return Err(Error::InvalidControlMsg);
                    },
                    Some(builder) => *builder,
                };
                match builder.peer_client_connected() {
                    Err(error) => {
                        return Err(error);
                    },
                    Ok(_) => {},
                }
                self.endpoint_builders.insert(endpoint_id, builder);
                assert(self@ =~= old(self)@.with_peer_client(endpoint_id));
                Ok(self.start_endpoint(endpoint_id))
            },
        }
    }

    /// Handles a local client that says which endpoint it is for: it gets a
    /// channel.
    pub fn handle_client(&mut self, router: &mut Router, endpoint_id: u16) -> (r: Result<
        ClientAction,
        Error,
    >)
        ensures
            ({
                let before = old(self)@.endpoint_builders;
                let builder = before[endpoint_id];
                let channel = endpoint_id as u64;
                if !before.contains_key(endpoint_id) {
                    &&& r == Ok::<ClientAction, Error>(ClientAction::Ignore)
                    &&& final(self)@ == old(self)@
                    &&& final(router)@ == old(router)@
                } else if builder.has_client {
                    &&& r matches Err(Error::FatalError)
                    &&& final(self)@ == old(self)@
                    &&& final(router)@ == old(router)@
                } else if old(router)@.contains(channel) {
                    &&& r == Err::<ClientAction, Error>(
                        Error::KyChannelAlreadyRegistered { endpoint_id: channel },
                    )
                    &&& final(self)@ == (StateView {
                        endpoint_builders: before.insert(
                            endpoint_id,
                            EndpointBuilder { has_client: true, ..builder },
                        ),
                        ..old(self)@
                    })
                    &&& final(router)@ == old(router)@
                } else {
                    &&& final(router)@ == old(router)@.insert(channel)
                    &&& final(self)@ == (StateView {
                        endpoint_builders: before.insert(
                            endpoint_id,
                            EndpointBuilder { has_client: true, has_ky_channel: true, ..builder },
                        ),
                        ..old(self)@
                    })
                    &&& if builder.has_ky_channel {
                        r matches Err(Error::FatalError)
                    } else {
                        r == Ok::<ClientAction, Error>(
                            ClientAction::Notify(ControlMsg::ClientConnected { endpoint_id }),
                        )
                    }
                }
            }),
    {
        let ghost before = self@.endpoint_builders;
        let mut builder = match self.endpoint_builders.get(&endpoint_id) {
            None => {
                return Ok(ClientAction::Ignore);
            },
            Some(builder) => *builder,
        };
        match builder.set_client() {
            Err(error) => {
                return Err(error);
            },
            Ok(_) => {},
        }
        self.endpoint_builders.insert(endpoint_id, builder);
        match router.register(endpoint_id as u64) {
            Err(error) => {
                return Err(error);
            },
            Ok(_) => {},
        }
        match builder.set_ky_channel() {
            Err(error) => {
                return Err(error);
            },
            Ok(_) => {},
        }
        self.endpoint_builders.insert(endpoint_id, builder);
        assert(self@.endpoint_builders =~= before.insert(endpoint_id, builder));
        Ok(ClientAction::Notify(ControlMsg::ClientConnected { endpoint_id }))
    }
}

/// When both sides have handled the registration and both clients have connected,
/// the endpoint starts: with a builder that waits for the peer's client alone,
/// the peer's message starts it, and no later message starts it again.
pub proof fn lemma_endpoint_starts_once(state: StateView, id: u16)
    requires
        state.endpoint_builders.contains_key(id),
        state.endpoint_builders[id].has_client,
        state.endpoint_builders[id].has_ky_channel,
        !state.endpoint_builders[id].peer_client_connected,
    ensures
        ({
            let (after, action) = state.with_peer_client(id).started(id);
            &&& action == ControlAction::Start(state.endpoint_builders[id].desc)
            &&& !after.endpoint_builders.contains_key(id)
            &&& after.started(id).1 == ControlAction::Wait
            &&& forall|last: StateView, r: Result<ControlAction, Error>| #[trigger]
                after.handled(ControlMsg::ClientConnected { endpoint_id: id }, last, r) ==> last
                    == after && r is Err
        }),
{
}

/// An endpoint starts exactly when its client, the peer's client and its channel are
/// there; then it is forgotten, and no other endpoint is touched. An endpoint that is not
/// known does not start.
pub proof fn lemma_start_needs_all(state: StateView, id: u16, other: u16)
    ensures
        ({
            let (after, action) = state.started(id);
            let known = state.endpoint_builders.contains_key(id);
            let builder = state.endpoint_builders[id];
            let starts = known && builder.has_client && builder.peer_client_connected
                && builder.has_ky_channel;
            &&& starts ==> action == ControlAction::Start(builder.desc)
                && !after.endpoint_builders.contains_key(id)
            &&& !starts ==> action == ControlAction::Wait && after == state
            &&& after.pending_endpoints == state.pending_endpoints
            &&& other != id ==> after.endpoint_builders.contains_key(other)
                == state.endpoint_builders.contains_key(other) && (
            state.endpoint_builders.contains_key(other) ==> after.endpoint_builders[other]
                == state.endpoint_builders[other])
        }),
{
}

/// What a message from the peer does. A message is about one endpoint, and leaves the
/// others as they are, both those that wait to start and those that the peer is to
/// acknowledge. A registration makes an endpoint of the peer that waits for everything,
/// and is acknowledged. An acknowledgement is taken once. The peer's client is taken once,
/// for an endpoint that is known, and starts it if nothing else is missing. Everything
/// else is refused, and changes nothing.
pub proof fn lemma_what_a_message_does(
    state: StateView,
    msg: ControlMsg,
    after: StateView,
    r: Result<ControlAction, Error>,
    id: u16,
    other: u16,
)
    requires
        state.handled(msg, after, r),
        msg == (ControlMsg::EndpointRegistered { endpoint_id: id }) || msg == (
        ControlMsg::ClientConnected { endpoint_id: id }) || (msg matches
            ControlMsg::RegisterEndpoint { id: i, .. } && i == id) || msg
            == ControlMsg::Authenticate || msg == ControlMsg::ConnectionAccepted,
        other != id,
    ensures
        after.endpoint_builders.contains_key(other) == state.endpoint_builders.contains_key(other),
        state.endpoint_builders.contains_key(other) ==> after.endpoint_builders[other]
            == state.endpoint_builders[other],
        after.pending_endpoints.contains(other) == state.pending_endpoints.contains(other),
        r is Err ==> after == state,
        msg == ControlMsg::Authenticate || msg == ControlMsg::ConnectionAccepted ==> (r matches Err(
            Error::InvalidControlMsg,
        )),
        msg matches ControlMsg::RegisterEndpoint { type_, .. } ==> {
            &&& after.pending_endpoints == state.pending_endpoints
            &&& after.endpoint_builders.contains_key(id)
            &&& after.endpoint_builders[id] == (EndpointBuilder {
                desc: EndpointDesc { id, owner: StreamOwner::Peer, type_ },
                has_client: false,
                peer_client_connected: false,
                has_ky_channel: false,
            })
            &&& r matches Ok(ControlAction::Send(ControlMsg::EndpointRegistered { endpoint_id }))
                && endpoint_id == id
        },
        msg is EndpointRegistered ==> {
            &&& after.endpoint_builders == state.endpoint_builders
            &&& !after.pending_endpoints.contains(id)
            &&& state.pending_endpoints.contains(id) ==> r == Ok::<ControlAction, Error>(
                ControlAction::NotifyRegistered(id),
            )
            &&& !state.pending_endpoints.contains(id) ==> (r matches Err(Error::InvalidControlMsg))
        },
        msg is ClientConnected ==> {
            let known = state.endpoint_builders.contains_key(id);
            let builder = state.endpoint_builders[id];
            &&& after.pending_endpoints == state.pending_endpoints
            &&& !known ==> (r matches Err(Error::InvalidControlMsg))
            &&& known && builder.peer_client_connected ==> (r matches Err(Error::FatalError))
            &&& known && !builder.peer_client_connected && builder.has_client
                && builder.has_ky_channel ==> !after.endpoint_builders.contains_key(id) && r
                == Ok::<ControlAction, Error>(ControlAction::Start(builder.desc))
            &&& known && !builder.peer_client_connected && !(builder.has_client
                && builder.has_ky_channel) ==> after.endpoint_builders.contains_key(id)
                && after.endpoint_builders[id] == (EndpointBuilder {
                peer_client_connected: true,
                ..builder
            }) && r == Ok::<ControlAction, Error>(ControlAction::Wait)
        },
{
}

} // verus!
