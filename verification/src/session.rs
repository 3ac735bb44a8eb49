//! The protocol of one connection: a peer first says who it is, then sends
//! signals to other peers until the connection ends.

use crate::dispatch::{announce, announcements, relay, relayed, Outgoing, OutgoingSpec};
use crate::matchbox::{PeerId, PeerRequest, RequestSpec};
use crate::model::{after_join, after_leave, has_peer, members, Roster};
use crate::registry::{Peer, State};
use crate::room::{RequestedRoom, RoomKey};
use vstd::prelude::*;

verus! {

/// Why nothing could be made of what a connection delivered.
#[derive(Debug, Clone, Copy, PartialEq, Eq, Structural)]
pub enum RequestError {
    /// The transport reported a fault; the connection is of no further use.
    Transport,
    /// A frame arrived that is not text.
    NotText,
    /// Text arrived that is no message of the protocol.
    Malformed,
}

/// What became of one item that a connection delivered.
#[derive(Debug, Clone, Copy, PartialEq, Eq, Structural)]
pub enum Outcome {
    /// The peer is registered and its room has been told.
    Registered,
    /// A signal is on its way to its receiver.
    Relayed,
    /// The identifier belongs to a peer on another connection, which keeps it.
    IdentityTaken,
    /// The connection has an identifier already; the first one stands.
    AlreadyIdentified,
    /// A signal came before the peer had said who it is.
    SignalTooEarly,
    /// A signal names a receiver that is not registered.
    UnknownReceiver,
    /// The item could not be read as a request and was dropped.
    Discarded(RequestError),
    /// The transport failed and the session was closed.
    TransportFault,
    /// The session had been closed before; the item was ignored.
    Closed,
}

/// The state of one connection.
pub enum Session<H> {
    /// The peer has not yet said who it is. The session holds the room that
    /// the connection asked for and the handle to its outbound path, both to
    /// be given to the registry with the peer's identifier.
    AwaitingIdentity { room: RequestedRoom, sender: H },
    /// The peer is registered under `uuid`.
    Active { uuid: PeerId },
    /// The connection has ended.
    Closed,
}

/// The mathematical value of a [`Session`].
pub enum SessionSpec<H> {
    AwaitingIdentity { room: RoomKey, sender: H },
    Active { uuid: Seq<char> },
    Closed,
}

impl<H> View for Session<H> {
    type V = SessionSpec<H>;

    open spec fn view(&self) -> SessionSpec<H> {
        match self {
            Session::AwaitingIdentity { room, sender } => SessionSpec::AwaitingIdentity {
                room: room@,
                sender: *sender,
            },
            Session::Active { uuid } => SessionSpec::Active { uuid: uuid@ },
            Session::Closed => SessionSpec::Closed,
        }
    }
}

/// What a session does with one item: the session and the roster afterwards,
/// the events to deliver, and what is to be reported.
pub struct Transition<H, S> {
    pub session: SessionSpec<H>,
    pub roster: Roster<H>,
    pub outgoing: Seq<OutgoingSpec<S>>,
    pub outcome: Outcome,
}

/// The mathematical value of an item that a connection delivered.
pub open spec fn item_view<S>(item: Result<PeerRequest<S>, RequestError>) -> Result<
    RequestSpec<S>,
    RequestError,
> {
    match item {
        Ok(request) => Ok(request@),
        Err(e) => Err(e),
    }
}

/// The roster once `session` has ended: its peer, if it had registered one,
/// has left.
pub open spec fn roster_after_close<H>(session: SessionSpec<H>, roster: Roster<H>) -> Roster<H> {
    match session {
        SessionSpec::Active { uuid } => after_leave(roster, uuid),
        _ => roster,
    }
}

/// An item that changes nothing and sends nothing.
pub open spec fn ignored<H, S>(
    session: SessionSpec<H>,
    roster: Roster<H>,
    outcome: Outcome,
) -> Transition<H, S> {
    Transition { session, roster, outgoing: Seq::empty(), outcome }
}

/// The protocol of a connection.
///
/// A closed session ignores everything. A transport fault closes the session
/// and removes its peer. Anything else that is no request is dropped. Before
/// the peer is registered only its identifier is accepted: if nobody holds
/// it, the peer joins its room and everyone who waited there is told. Once
/// registered, the peer may send signals, each of which goes to its receiver
/// alone if that receiver is registered, and nowhere otherwise.
pub open spec fn transition<H, S>(
    session: SessionSpec<H>,
    roster: Roster<H>,
    item: Result<RequestSpec<S>, RequestError>,
) -> Transition<H, S> {
    match (session, item) {
        (SessionSpec::Closed, _) => ignored(session, roster, Outcome::Closed),
        (_, Err(RequestError::Transport)) => ignored(
            SessionSpec::Closed,
            roster_after_close(session, roster),
            Outcome::TransportFault,
        ),
        (_, Err(e)) => ignored(session, roster, Outcome::Discarded(e)),
        (SessionSpec::AwaitingIdentity { room, sender }, Ok(RequestSpec::Uuid(id))) => {
            if has_peer(roster, id) {
                ignored(session, roster, Outcome::IdentityTaken)
            } else {
                Transition {
                    session: SessionSpec::Active { uuid: id },
                    roster: after_join(roster, id, room, sender),
                    outgoing: announcements(members(roster, room), id),
                    outcome: Outcome::Registered,
                }
            }
        },
        (SessionSpec::AwaitingIdentity { .. }, Ok(RequestSpec::Signal { .. })) => ignored(
            session,
            roster,
            Outcome::SignalTooEarly,
        ),
        (SessionSpec::Active { .. }, Ok(RequestSpec::Uuid(_))) => ignored(
            session,
            roster,
            Outcome::AlreadyIdentified,
        ),
        (SessionSpec::Active { uuid }, Ok(RequestSpec::Signal { receiver, data })) => {
            if has_peer(roster, receiver) {
                Transition {
                    session,
                    roster,
                    outgoing: seq![relayed(uuid, receiver, data)],
                    outcome: Outcome::Relayed,
                }
            } else {
                ignored(session, roster, Outcome::UnknownReceiver)
            }
        },
    }
}

/// What [`Session::receive`] hands back: the session to go on with, the
/// events to deliver, and what to report.
pub struct Step<H, S> {
    pub session: Session<H>,
    pub outgoing: Vec<Outgoing<S>>,
    pub outcome: Outcome,
}

impl<H> Session<H> {
    /// The session of a connection that has just been accepted.
    pub fn new(room: RequestedRoom, sender: H) -> (session: Self)
        ensures
            session@ == (SessionSpec::AwaitingIdentity { room: room@, sender }),
    {
        Session::AwaitingIdentity { room, sender }
    }

    /// The identifier that the session's peer is registered under, once it is.
    pub fn uuid(&self) -> (uuid: Option<&PeerId>)
        ensures
            match uuid {
                Some(id) => self@ == (SessionSpec::<H>::Active { uuid: id@ }),
                None => !(self@ is Active),
            },
    {
        match self {
            Session::Active { uuid } => Some(uuid),
            _ => None,
        }
    }

    /// Whether the session has ended.
    pub fn is_closed(&self) -> (closed: bool)
        ensures
            closed == (self@ is Closed),
    {
        match self {
            Session::Closed => true,
            _ => false,
        }
    }

    /// Takes one item that the connection delivered, a request or the reason
    /// why there is none, and does with it what the protocol says.
    pub fn receive<S>(
        self,
        state: &mut State<H>,
        item: Result<PeerRequest<S>, RequestError>,
    ) -> (step: Step<H, S>)
        ensures
            step.session@ == transition(self@, old(state)@, item_view(item)).session,
            final(state)@ == transition(self@, old(state)@, item_view(item)).roster,
            step.outgoing.deep_view() == transition(self@, old(state)@, item_view(item)).outgoing,
            step.outcome == transition(self@, old(state)@, item_view(item)).outcome,
    {
        match self {
            Session::Closed => Step {
                session: Session::Closed,
                outgoing: no_events(),
                outcome: Outcome::Closed,
            },
            Session::AwaitingIdentity { room, sender } => match item {
                Err(RequestError::Transport) => Step {
                    session: Session::Closed,
                    outgoing: no_events(),
                    outcome: Outcome::TransportFault,
                },
                Err(e) => Step {
                    session: Session::AwaitingIdentity { room, sender },
                    outgoing: no_events(),
                    outcome: Outcome::Discarded(e),
                },
                Ok(PeerRequest::Uuid(id)) => {
                    let uuid = id.clone();
                    match state.add_peer(Peer { uuid: id, room, sender }) {
                        Ok(existing) => Step {
                            session: Session::Active { uuid: uuid.clone() },
                            outgoing: announce(&existing, &uuid),
                            outcome: Outcome::Registered,
                        },
                        Err(back) => Step {
                            session: Session::AwaitingIdentity {
                                room: back.room,
                                sender: back.sender,
                            },
                            outgoing: no_events(),
                            outcome: Outcome::IdentityTaken,
                        },
                    }
                },
                Ok(PeerRequest::Signal { .. }) => Step {
                    session: Session::AwaitingIdentity { room, sender },
                    outgoing: no_events(),
                    outcome: Outcome::SignalTooEarly,
                },
            },
            Session::Active { uuid } => match item {
                Err(RequestError::Transport) => {
                    state.remove_peer(&uuid);
                    Step {
                        session: Session::Closed,
                        outgoing: no_events(),
                        outcome: Outcome::TransportFault,
                    }
                },
                Err(e) => Step {
                    session: Session::Active { uuid },
                    outgoing: no_events(),
                    outcome: Outcome::Discarded(e),
                },
                Ok(PeerRequest::Uuid(_)) => Step {
                    session: Session::Active { uuid },
                    outgoing: no_events(),
                    outcome: Outcome::AlreadyIdentified,
                },
                Ok(PeerRequest::Signal { receiver, data }) => {
                    if state.contains(&receiver) {
                        let mut outgoing: Vec<Outgoing<S>> = Vec::new();
                        outgoing.push(relay(uuid.clone(), receiver, data));
                        assert(outgoing.deep_view() =~= seq![relayed(uuid@, receiver@, data)]);
                        Step { session: Session::Active { uuid }, outgoing, outcome: Outcome::Relayed }
                    } else {
                        Step {
                            session: Session::Active { uuid },
                            outgoing: no_events(),
                            outcome: Outcome::UnknownReceiver,
                        }
                    }
                },
            },
        }
    }

    /// Ends the session because its connection has ended, for whatever
    /// reason. The peer that the session had registered, if any, is removed
    /// from the registry; a session that was closed before changes nothing.
    pub fn close(self, state: &mut State<H>) -> (session: Self)
        ensures
            session@ is Closed,
            final(state)@ == roster_after_close(self@, old(state)@),
    {
        match self {
            Session::Active { uuid } => {
                state.remove_peer(&uuid);
            },
            _ => {},
        }
        Session::Closed
    }
}

fn no_events<S>() -> (outgoing: Vec<Outgoing<S>>)
    ensures
        outgoing.deep_view() == Seq::<OutgoingSpec<S>>::empty(),
{
    let outgoing: Vec<Outgoing<S>> = Vec::new();
    assert(outgoing.deep_view() =~= Seq::<OutgoingSpec<S>>::empty());
    outgoing
}

} // verus!
