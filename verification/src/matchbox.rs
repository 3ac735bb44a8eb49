//! The messages that peers and the relay exchange.
//!
//! The payload type `S` is carried through untouched: the relay never looks
//! inside the negotiation data that one peer sends to another.

use vstd::prelude::*;

verus! {

/// The identifier a peer announces itself under, unique across the relay.
pub type PeerId = String;

/// Requests go from a peer to the relay.
#[derive(Debug, PartialEq, Eq)]
pub enum PeerRequest<S> {
    /// Announce the identifier of the peer on this connection.
    Uuid(PeerId),
    /// Hand `data` to the peer registered as `receiver`.
    Signal { receiver: PeerId, data: S },
}

/// Events go from the relay to a peer.
#[derive(Debug, PartialEq, Eq)]
pub enum PeerEvent<S> {
    /// A peer with this identifier has joined the room of the addressee.
    NewPeer(PeerId),
    /// The peer registered as `sender` has sent `data` to the addressee.
    Signal { sender: PeerId, data: S },
}

/// The mathematical value of a [`PeerRequest`].
pub enum RequestSpec<S> {
    Uuid(Seq<char>),
    Signal { receiver: Seq<char>, data: S },
}

/// The mathematical value of a [`PeerEvent`].
pub enum EventSpec<S> {
    NewPeer(Seq<char>),
    Signal { sender: Seq<char>, data: S },
}

impl<S> View for PeerRequest<S> {
    type V = RequestSpec<S>;

    open spec fn view(&self) -> RequestSpec<S> {
        match self {
            PeerRequest::Uuid(id) => RequestSpec::Uuid(id@),
            PeerRequest::Signal { receiver, data } => RequestSpec::Signal {
                receiver: receiver@,
                data: *data,
            },
        }
    }
}

impl<S> View for PeerEvent<S> {
    type V = EventSpec<S>;

    open spec fn view(&self) -> EventSpec<S> {
        match self {
            PeerEvent::NewPeer(id) => EventSpec::NewPeer(id@),
            PeerEvent::Signal { sender, data } => EventSpec::Signal { sender: sender@, data: *data },
        }
    }
}

} // verus!
