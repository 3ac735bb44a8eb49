//! Turns what the registry decided into events addressed to single peers.

use crate::matchbox::{EventSpec, PeerEvent, PeerId};
use vstd::prelude::*;

verus! {

/// An event on its way to one peer.
#[derive(Debug, PartialEq, Eq)]
pub struct Outgoing<S> {
    /// The peer the event is for.
    pub receiver: PeerId,
    /// What the peer is told.
    pub event: PeerEvent<S>,
}

/// The mathematical value of an [`Outgoing`].
pub struct OutgoingSpec<S> {
    pub receiver: Seq<char>,
    pub event: EventSpec<S>,
}

impl<S> View for Outgoing<S> {
    type V = OutgoingSpec<S>;

    open spec fn view(&self) -> OutgoingSpec<S> {
        OutgoingSpec { receiver: self.receiver@, event: self.event@ }
    }
}

impl<S> DeepView for Outgoing<S> {
    type V = OutgoingSpec<S>;

    open spec fn deep_view(&self) -> OutgoingSpec<S> {
        self@
    }
}

/// One `NewPeer` event about `newcomer` for each of `existing`, in their order.
pub open spec fn announcements<S>(existing: Seq<Seq<char>>, newcomer: Seq<char>) -> Seq<
    OutgoingSpec<S>,
> {
    Seq::new(
        existing.len(),
        |i: int| OutgoingSpec { receiver: existing[i], event: EventSpec::NewPeer(newcomer) },
    )
}

/// The one event by which `data` from `sender` reaches `receiver`.
pub open spec fn relayed<S>(sender: Seq<char>, receiver: Seq<char>, data: S) -> OutgoingSpec<S> {
    OutgoingSpec { receiver, event: EventSpec::Signal { sender, data } }
}

/// Tells everyone who was in the room that `newcomer` has joined: one
/// `NewPeer` event for each of `existing`, in the order in which they stand.
pub fn announce<S>(existing: &Vec<PeerId>, newcomer: &PeerId) -> (outgoing: Vec<Outgoing<S>>)
    ensures
        outgoing.deep_view() == announcements::<S>(existing.deep_view(), newcomer@),
{
    let mut outgoing: Vec<Outgoing<S>> = Vec::new();
    let mut i: usize = 0;
    while i < existing.len()
        invariant
            i <= existing@.len(),
            outgoing@.len() == i,
            forall|j: int|
                0 <= j < i ==> (#[trigger] outgoing@[j])@ == announcements::<S>(
                    existing.deep_view(),
                    newcomer@,
                )[j],
        decreases existing@.len() - i,
    {
        outgoing.push(
            Outgoing { receiver: existing[i].clone(), event: PeerEvent::NewPeer(newcomer.clone()) },
        );
        i = i + 1;
    }
    assert(outgoing.deep_view() =~= announcements::<S>(existing.deep_view(), newcomer@));
    outgoing
}

/// Addresses `data` from `sender` to `receiver`, and to nobody else. The data
/// is passed on as it came.
pub fn relay<S>(sender: PeerId, receiver: PeerId, data: S) -> (outgoing: Outgoing<S>)
    ensures
        outgoing@ == relayed(sender@, receiver@, data),
{
    Outgoing { receiver, event: PeerEvent::Signal { sender, data } }
}

} // verus!
