//! The peer registry: who is connected, which room each peer asked for, and
//! who is still waiting to be matched.

use crate::matchbox::PeerId;
use crate::model::{
    after_join, after_leave, dissolved, has_peer, lemma_join_keeps_well_formed,
    lemma_leave_keeps_well_formed, lemma_members_registered, members, position, sender_of,
    well_formed, PeerSpec, Roster,
};
use crate::room::RequestedRoom;
use vstd::prelude::*;

verus! {

/// A connected peer as the registry keeps it.
pub struct Peer<H> {
    /// The identifier the peer announced.
    pub uuid: PeerId,
    /// The room the peer's connection asked for.
    pub room: RequestedRoom,
    /// The handle through which events are queued for the peer.
    pub sender: H,
}

struct Slot<H> {
    peer: Peer<H>,
    waiting: bool,
}

impl<H> Slot<H> {
    spec fn spec(self) -> PeerSpec<H> {
        PeerSpec {
            id: self.peer.uuid@,
            room: self.peer.room@,
            waiting: self.waiting,
            sender: self.peer.sender,
        }
    }
}

/// The registry. Peers are kept in the order in which they registered, so
/// that a room's members are always reported first registered first.
pub struct State<H> {
    slots: Vec<Slot<H>>,
}

impl<H> View for State<H> {
    type V = Roster<H>;

    closed spec fn view(&self) -> Roster<H> {
        roster_of(self.slots@)
    }
}

spec fn roster_of<H>(slots: Seq<Slot<H>>) -> Roster<H> {
    Seq::new(slots.len(), |i: int| slots[i].spec())
}

impl<H> Default for State<H> {
    fn default() -> (state: Self)
        ensures
            state@ == Seq::<PeerSpec<H>>::empty(),
    {
        State::new()
    }
}

impl<H> State<H> {
    /// What holds of every registry at all times; see [`well_formed`].
    #[verifier::type_invariant]
    pub open spec fn wf(self) -> bool {
        well_formed(self@)
    }

    /// A registry without peers.
    pub fn new() -> (state: Self)
        ensures
            state@ == Seq::<PeerSpec<H>>::empty(),
    {
        let slots: Vec<Slot<H>> = Vec::new();
        assert(roster_of(slots@) =~= Seq::<PeerSpec<H>>::empty());
        State { slots }
    }

    /// The number of registered peers.
    pub fn len(&self) -> (n: usize)
        ensures
            n == self@.len(),
    {
        self.slots.len()
    }

    fn find(&self, id: &PeerId) -> (found: Option<usize>)
        ensures
            match found {
                Some(i) => i < self@.len() && self@[i as int].id == id@,
                None => !has_peer(self@, id@),
            },
    {
        let mut i: usize = 0;
        while i < self.slots.len()
            invariant
                i <= self.slots@.len(),
                forall|j: int| 0 <= j < i ==> (#[trigger] self@[j]).id != id@,
            decreases self.slots@.len() - i,
        {
            if self.slots[i].peer.uuid == *id {
                return Some(i);
            }
            i = i + 1;
        }
        None
    }

    /// Whether a peer is registered under `id`.
    pub fn contains(&self, id: &PeerId) -> (known: bool)
        ensures
            known == has_peer(self@, id@),
    {
        self.find(id).is_some()
    }

    /// Looks up the handle through which events reach the peer registered
    /// under `id`. An unknown identifier is no fault of the registry: the peer
    /// may have left while someone was still talking to it.
    pub fn try_send(&self, id: &PeerId) -> (sender: Option<&H>)
        ensures
            sender.is_some() == has_peer(self@, id@),
            match sender {
                Some(handle) => Some(*handle) == sender_of(self@, id@),
                None => sender_of(self@, id@) is None,
            },
    {
        match self.find(id) {
            Some(i) => {
                proof {
                    use_type_invariant(self);
                    let k = position(self@, id@);
                    assert(self@[i as int].id == self@[k].id);
                    if k < i {
                        assert(self@[k].id != self@[i as int].id);
                    } else if i < k {
                        assert(self@[i as int].id != self@[k].id);
                    }
                }
                Some(&self.slots[i].peer.sender)
            },
            None => None,
        }
    }

    /// The peers that wait in `room`, first registered first.
    pub fn waiting_in(&self, room: &RequestedRoom) -> (ids: Vec<PeerId>)
        ensures
            ids.deep_view() == members(self@, room@),
    {
        let mut ids: Vec<PeerId> = Vec::new();
        let mut i: usize = 0;
        assert(self@.take(0) =~= Seq::<PeerSpec<H>>::empty());
        while i < self.slots.len()
            invariant
                i <= self.slots@.len(),
                ids.deep_view() == members(self@.take(i as int), room@),
            decreases self.slots@.len() - i,
        {
            let ghost before = ids.deep_view();
            proof {
                assert(self@.take(i + 1).drop_last() =~= self@.take(i as int));
                assert(self@.take(i + 1).last() == self@[i as int]);
            }
            if self.slots[i].waiting && self.slots[i].peer.room.same_as(room) {
                ids.push(self.slots[i].peer.uuid.clone());
                assert(ids.deep_view() =~= before.push(self@[i as int].id));
            }
            i = i + 1;
        }
        assert(self@.take(i as int) =~= self@);
        ids
    }

    /// Registers a peer and reports who was waiting in its room before it
    /// came, first registered first.
    ///
    /// A peer whose identifier is already registered is handed back untouched
    /// and the registry stays as it was: the first registrant keeps the
    /// identifier. Otherwise the newcomer joins its room. In a named room it
    /// is listed behind those already there. In a sized group it is listed the
    /// same way, unless it is the one that completes the group: then the
    /// group is forgotten, so that the next arrival starts a new one.
    pub fn add_peer(&mut self, peer: Peer<H>) -> (joined: Result<Vec<PeerId>, Peer<H>>)
        ensures
            match joined {
                Ok(existing) => {
                    &&& !has_peer(old(self)@, peer.uuid@)
                    &&& existing.deep_view() == members(old(self)@, peer.room@)
                    &&& !existing.deep_view().contains(peer.uuid@)
                    &&& final(self)@ == after_join(
                        old(self)@,
                        peer.uuid@,
                        peer.room@,
                        peer.sender,
                    )
                },
                Err(back) => {
                    &&& has_peer(old(self)@, peer.uuid@)
                    &&& back == peer
                    &&& final(self)@ == old(self)@
                },
            },
    {
        if self.contains(&peer.uuid) {
            return Err(peer);
        }
        let existing = self.waiting_in(&peer.room);
        let complete = match &peer.room {
            RequestedRoom::Id(_) => false,
            RequestedRoom::Next(size) => *size == 0 || existing.len() >= *size - 1,
        };
        proof {
            use_type_invariant(&*self);
            lemma_join_keeps_well_formed(old(self)@, peer.uuid@, peer.room@, peer.sender);
            if existing.deep_view().contains(peer.uuid@) {
                lemma_members_registered(old(self)@, peer.room@, peer.uuid@);
            }
        }
        let mut slots = self.take_slots();
        if complete {
            dissolve(&mut slots, &peer.room);
        }
        let ghost before = roster_of(slots@);
        let ghost entry = PeerSpec {
            id: peer.uuid@,
            room: peer.room@,
            waiting: !complete,
            sender: peer.sender,
        };
        slots.push(Slot { peer, waiting: !complete });
        assert(roster_of(slots@) =~= before.push(entry));
        self.slots = slots;
        Ok(existing)
    }

    /// Forgets the peer registered under `peer_id`. Nothing happens if there
    /// is no such peer; nobody is told that the peer has left.
    pub fn remove_peer(&mut self, peer_id: &PeerId)
        ensures
            final(self)@ == after_leave(old(self)@, peer_id@),
            !has_peer(final(self)@, peer_id@),
            !has_peer(old(self)@, peer_id@) ==> final(self)@ == old(self)@,
    {
        proof {
            use_type_invariant(&*self);
            lemma_leave_keeps_well_formed(old(self)@, peer_id@);
        }
        match self.find(peer_id) {
            Some(i) => {
                proof {
                    let k = position(self@, peer_id@);
                    assert(self@[i as int].id == self@[k].id);
                    if k < i {
                        assert(self@[k].id != self@[i as int].id);
                    } else if i < k {
                        assert(self@[i as int].id != self@[k].id);
                    }
                }
                let mut slots = self.take_slots();
                slots.remove(i);
                assert(roster_of(slots@) =~= old(self)@.remove(i as int));
                self.slots = slots;
            },
            None => {},
        }
    }

    /// Takes the peers out of the registry, to put them back changed.
    fn take_slots(&mut self) -> (slots: Vec<Slot<H>>)
        ensures
            slots@ == old(self).slots@,
            final(self).slots@.len() == 0,
    {
        let mut slots: Vec<Slot<H>> = Vec::new();
        assert(roster_of(slots@) =~= Seq::<PeerSpec<H>>::empty());
        std::mem::swap(&mut slots, &mut self.slots);
        slots
    }
}

/// Makes the matching index forget everyone who waits in `room`.
fn dissolve<H>(slots: &mut Vec<Slot<H>>, room: &RequestedRoom)
    ensures
        roster_of(final(slots)@) == dissolved(roster_of(old(slots)@), room@),
{
    let mut i: usize = 0;
    while i < slots.len()
        invariant
            i <= slots@.len(),
            slots@.len() == old(slots)@.len(),
            forall|j: int|
                0 <= j < i ==> (#[trigger] slots@[j]).spec() == dissolved(
                    roster_of(old(slots)@),
                    room@,
                )[j],
            forall|j: int| i <= j < slots@.len() ==> #[trigger] slots@[j] == old(slots)@[j],
        decreases slots@.len() - i,
    {
        if slots[i].peer.room.same_as(room) {
            slots[i].waiting = false;
        }
        i = i + 1;
    }
    assert(roster_of(slots@) =~= dissolved(roster_of(old(slots)@), room@));
}

} // verus!
