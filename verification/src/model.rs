//! The registry as a mathematical object: the registered peers in the order in
//! which they registered, and what joining and leaving do to that sequence.

use crate::room::RoomKey;
use vstd::prelude::*;

verus! {

/// One registered peer.
pub struct PeerSpec<H> {
    /// The identifier the peer registered under.
    pub id: Seq<char>,
    /// The room the peer asked for.
    pub room: RoomKey,
    /// Whether the room's matching index still lists the peer. A peer of a
    /// sized group stops being listed when its group completes.
    pub waiting: bool,
    /// The handle through which events reach the peer.
    pub sender: H,
}

/// The registered peers, first registered first.
pub type Roster<H> = Seq<PeerSpec<H>>;

/// Whether a peer is registered under `id`.
pub open spec fn has_peer<H>(s: Roster<H>, id: Seq<char>) -> bool {
    exists|i: int| 0 <= i < s.len() && (#[trigger] s[i]).id == id
}

/// Where the peer registered under `id` stands in the roster.
pub open spec fn position<H>(s: Roster<H>, id: Seq<char>) -> int {
    choose|i: int| 0 <= i < s.len() && (#[trigger] s[i]).id == id
}

/// The handle of the peer registered under `id`, if there is one.
pub open spec fn sender_of<H>(s: Roster<H>, id: Seq<char>) -> Option<H> {
    if has_peer(s, id) {
        Some(s[position(s, id)].sender)
    } else {
        None
    }
}

/// The peers that the matching index lists for `room`, first registered first.
pub open spec fn members<H>(s: Roster<H>, room: RoomKey) -> Seq<Seq<char>>
    decreases s.len(),
{
    if s.len() == 0 {
        Seq::empty()
    } else if s.last().waiting && s.last().room == room {
        members(s.drop_last(), room).push(s.last().id)
    } else {
        members(s.drop_last(), room)
    }
}

/// No identifier is registered twice.
pub open spec fn unique_ids<H>(s: Roster<H>) -> bool {
    forall|i: int, j: int| 0 <= i < j < s.len() ==> (#[trigger] s[i]).id != (#[trigger] s[j]).id
}

/// What holds of every roster that the registry reaches: identifiers are
/// unique, a peer of a named room stays listed for as long as it is
/// registered, and a sized group never waits with its full number.
pub open spec fn well_formed<H>(s: Roster<H>) -> bool {
    &&& unique_ids(s)
    &&& forall|i: int| 0 <= i < s.len() && (#[trigger] s[i]).room is Id ==> s[i].waiting
    &&& forall|size: nat| size >= 1 ==> (#[trigger] members(s, RoomKey::Next(size))).len() < size
}

/// Whether one more peer completes the group that waits for `room`. A named
/// room is never complete.
pub open spec fn completes<H>(s: Roster<H>, room: RoomKey) -> bool {
    match room {
        RoomKey::Id(_) => false,
        RoomKey::Next(size) => members(s, room).len() + 1 >= size,
    }
}

/// The roster once the matching index has forgotten everyone listed for `room`.
pub open spec fn dissolved<H>(s: Roster<H>, room: RoomKey) -> Roster<H> {
    Seq::new(
        s.len(),
        |i: int|
            if s[i].room == room {
                PeerSpec { id: s[i].id, room: s[i].room, waiting: false, sender: s[i].sender }
            } else {
                s[i]
            },
    )
}

/// The roster after a peer that was not registered yet has joined `room`.
pub open spec fn after_join<H>(s: Roster<H>, id: Seq<char>, room: RoomKey, sender: H) -> Roster<H> {
    if completes(s, room) {
        dissolved(s, room).push(PeerSpec { id, room, waiting: false, sender })
    } else {
        s.push(PeerSpec { id, room, waiting: true, sender })
    }
}

/// The roster after the peer registered under `id` has left, if there was one.
pub open spec fn after_leave<H>(s: Roster<H>, id: Seq<char>) -> Roster<H> {
    if has_peer(s, id) {
        s.remove(position(s, id))
    } else {
        s
    }
}

/// Appending a peer lists it last in its room if it waits, and changes no
/// other room.
pub proof fn lemma_members_push<H>(s: Roster<H>, p: PeerSpec<H>, room: RoomKey)
    ensures
        members(s.push(p), room) == if p.waiting && p.room == room {
            members(s, room).push(p.id)
        } else {
            members(s, room)
        },
{
    assert(s.push(p).drop_last() =~= s);
}

/// Dissolving a room empties that room and changes no other.
pub proof fn lemma_members_dissolved<H>(s: Roster<H>, gone: RoomKey, room: RoomKey)
    ensures
        members(dissolved(s, gone), room) == if room == gone {
            Seq::empty()
        } else {
            members(s, room)
        },
    decreases s.len(),
{
    if s.len() > 0 {
        lemma_members_dissolved(s.drop_last(), gone, room);
        assert(dissolved(s, gone).drop_last() =~= dissolved(s.drop_last(), gone));
    }
}

/// Everyone listed for a room is registered.
pub proof fn lemma_members_registered<H>(s: Roster<H>, room: RoomKey, id: Seq<char>)
    requires
        members(s, room).contains(id),
    ensures
        has_peer(s, id),
    decreases s.len(),
{
    if s.len() > 0 {
        let k = choose|k: int| 0 <= k < members(s, room).len() && members(s, room)[k] == id;
        if s.last().waiting && s.last().room == room && k == members(s, room).len() - 1 {
            assert(s[s.len() - 1].id == id);
        } else {
            assert(members(s.drop_last(), room)[k] == id);
            lemma_members_registered(s.drop_last(), room, id);
            let i = choose|i: int| 0 <= i < s.drop_last().len() && (#[trigger] s.drop_last()[i]).id == id;
            assert(s[i].id == id);
        }
    }
}

/// A registered identifier stays registered through a join, which adds the
/// newcomer's and nothing else.
pub proof fn lemma_has_peer_after_join<H>(
    s: Roster<H>,
    id: Seq<char>,
    room: RoomKey,
    sender: H,
    other: Seq<char>,
)
    ensures
        has_peer(after_join(s, id, room, sender), other) <==> (other == id || has_peer(s, other)),
{
    let t = after_join(s, id, room, sender);
    assert(t.len() == s.len() + 1);
    assert(t[s.len() as int].id == id);
    assert forall|i: int| 0 <= i < s.len() implies (#[trigger] t[i]).id == s[i].id by {}
    if has_peer(s, other) {
        let i = choose|i: int| 0 <= i < s.len() && (#[trigger] s[i]).id == other;
        assert(t[i].id == other);
    }
    if has_peer(t, other) && other != id {
        let i = choose|i: int| 0 <= i < t.len() && (#[trigger] t[i]).id == other;
        assert(s[i].id == other);
    }
}

/// Joining under an identifier that is not registered yet keeps the roster
/// well formed.
pub proof fn lemma_join_keeps_well_formed<H>(s: Roster<H>, id: Seq<char>, room: RoomKey, sender: H)
    requires
        well_formed(s),
        !has_peer(s, id),
    ensures
        well_formed(after_join(s, id, room, sender)),
{
    let t = after_join(s, id, room, sender);
    assert forall|i: int| 0 <= i < s.len() implies (#[trigger] t[i]).id == s[i].id && (t[i].room
        is Id ==> t[i].waiting) by {}
    assert forall|i: int, j: int| 0 <= i < j < t.len() implies (#[trigger] t[i]).id != (
    #[trigger] t[j]).id by {
        if j == s.len() {
            assert(s[i].id != id);
        } else {
            assert(s[i].id != s[j].id);
        }
    }
    assert forall|size: nat| size >= 1 implies (#[trigger] members(t, RoomKey::Next(size))).len()
        < size by {
        let r = RoomKey::Next(size);
        assert(members(s, r).len() < size);
        if completes(s, room) {
            lemma_members_dissolved(s, room, r);
            lemma_members_push(
                dissolved(s, room),
                PeerSpec { id, room, waiting: false, sender },
                r,
            );
        } else {
            lemma_members_push(s, PeerSpec { id, room, waiting: true, sender }, r);
        }
    }
}

/// The identifiers in `ids` other than `id`, in their order.
pub open spec fn others(ids: Seq<Seq<char>>, id: Seq<char>) -> Seq<Seq<char>> {
    ids.filter(other_than(id))
}

/// What holds of every identifier but `id`.
pub open spec fn other_than(id: Seq<char>) -> spec_fn(Seq<char>) -> bool {
    |m: Seq<char>| m != id
}

/// Taking out an identifier that is not there changes nothing.
pub proof fn lemma_others_of_absent(ids: Seq<Seq<char>>, id: Seq<char>)
    requires
        !ids.contains(id),
    ensures
        others(ids, id) == ids,
    decreases ids.len(),
{
    let pred = other_than(id);
    if ids.len() == 0 {
        reveal(Seq::filter);
    } else {
        let rest = ids.drop_last();
        assert(ids =~= rest.push(ids.last()));
        assert(ids[ids.len() - 1] != id);
        assert forall|i: int| 0 <= i < rest.len() implies rest[i] != id by {
            assert(ids[i] != id);
        }
        lemma_others_of_absent(rest, id);
        rest.lemma_filter_push(ids.last(), pred);
    }
}

/// Removing one peer from the roster takes it off every room's list and
/// keeps the others in their order.
pub proof fn lemma_members_remove<H>(s: Roster<H>, k: int, room: RoomKey)
    requires
        0 <= k < s.len(),
        unique_ids(s),
    ensures
        members(s.remove(k), room) == others(members(s, room), s[k].id),
    decreases s.len(),
{
    let id = s[k].id;
    let pred = other_than(id);
    let rest = s.drop_last();
    if k == s.len() - 1 {
        assert(s.remove(k) =~= rest);
        if members(rest, room).contains(id) {
            lemma_members_registered(rest, room, id);
            let i = choose|i: int| 0 <= i < rest.len() && (#[trigger] rest[i]).id == id;
            assert(s[i].id != s[k].id);
        }
        lemma_others_of_absent(members(rest, room), id);
        members(rest, room).lemma_filter_push(id, pred);
    } else {
        assert forall|i: int, j: int| 0 <= i < j < rest.len() implies (#[trigger] rest[i]).id != (
        #[trigger] rest[j]).id by {
            assert(s[i].id != s[j].id);
        }
        lemma_members_remove(rest, k, room);
        assert(s.remove(k).drop_last() =~= rest.remove(k));
        assert(s.remove(k).last() == s.last());
        assert(rest[k] == s[k]);
        assert(s[k].id != s[s.len() - 1].id);
        members(rest, room).lemma_filter_push(s.last().id, pred);
    }
}

/// A peer's leaving keeps the roster well formed and leaves nobody registered
/// under its identifier.
pub proof fn lemma_leave_keeps_well_formed<H>(s: Roster<H>, id: Seq<char>)
    requires
        well_formed(s),
    ensures
        well_formed(after_leave(s, id)),
        !has_peer(after_leave(s, id), id),
{
    let t = after_leave(s, id);
    if has_peer(s, id) {
        let k = position(s, id);
        assert forall|i: int| 0 <= i < t.len() implies #[trigger] t[i] == s[if i < k {
            i
        } else {
            i + 1
        }] by {}
        assert forall|i: int, j: int| 0 <= i < j < t.len() implies (#[trigger] t[i]).id != (
        #[trigger] t[j]).id by {
            let a = if i < k { i } else { i + 1 };
            let b = if j < k { j } else { j + 1 };
            assert(s[a].id != s[b].id);
        }
        assert forall|size: nat| size >= 1 implies (#[trigger] members(
            t,
            RoomKey::Next(size),
        )).len() < size by {
            assert(members(s, RoomKey::Next(size)).len() < size);
            lemma_members_remove(s, k, RoomKey::Next(size));
            members(s, RoomKey::Next(size)).lemma_filter_len(other_than(s[k].id));
        }
        if has_peer(t, id) {
            let i = choose|i: int| 0 <= i < t.len() && (#[trigger] t[i]).id == id;
            let a = if i < k { i } else { i + 1 };
            assert(s[a].id == id);
            assert(s[k].id == id);
            if a < k {
                assert(s[a].id != s[k].id);
            } else {
                assert(s[k].id != s[a].id);
            }
        }
    }
}

} // verus!
