//! What follows from the rules of the registry and of the protocol, whoever
//! the peers are and in whatever order they arrive.

use crate::dispatch::{relayed, OutgoingSpec};
use crate::matchbox::{EventSpec, RequestSpec};
use crate::model::{
    after_join, after_leave, completes, dissolved, has_peer, lemma_has_peer_after_join,
    lemma_leave_keeps_well_formed, lemma_members_dissolved, lemma_members_push,
    lemma_members_registered, lemma_members_remove, lemma_others_of_absent, members, others,
    position, sender_of, unique_ids, well_formed, PeerSpec, Roster,
};
use crate::room::RoomKey;
use crate::session::{transition, Outcome, RequestError, SessionSpec};
use vstd::prelude::*;

verus! {

/// A peer that asks to be registered: its identifier and its handle.
pub struct Arrival<H> {
    pub id: Seq<char>,
    pub sender: H,
}

/// The roster after one registration: the peer has joined, unless its
/// identifier was taken, in which case nothing has changed.
pub open spec fn after_register<H>(
    s: Roster<H>,
    id: Seq<char>,
    room: RoomKey,
    sender: H,
) -> Roster<H> {
    if has_peer(s, id) {
        s
    } else {
        after_join(s, id, room, sender)
    }
}

/// The roster after `arrivals` have registered for `room`, one after another.
pub open spec fn after_arrivals<H>(s: Roster<H>, room: RoomKey, arrivals: Seq<Arrival<H>>) -> Roster<
    H,
>
    decreases arrivals.len(),
{
    if arrivals.len() == 0 {
        s
    } else {
        after_register(
            after_arrivals(s, room, arrivals.drop_last()),
            arrivals.last().id,
            room,
            arrivals.last().sender,
        )
    }
}

/// The identifiers of `arrivals`, in their order.
pub open spec fn ids_of<H>(arrivals: Seq<Arrival<H>>) -> Seq<Seq<char>> {
    Seq::new(arrivals.len(), |i: int| arrivals[i].id)
}

/// The arrivals' identifiers differ from each other and from those that `s`
/// holds.
pub open spec fn newcomers<H>(s: Roster<H>, arrivals: Seq<Arrival<H>>) -> bool {
    &&& forall|i: int, j: int|
        0 <= i < j < arrivals.len() ==> (#[trigger] arrivals[i]).id != (#[trigger] arrivals[j]).id
    &&& forall|i: int| 0 <= i < arrivals.len() ==> !has_peer(s, (#[trigger] arrivals[i]).id)
}

proof fn lemma_next_remainder(k: int, n: int)
    requires
        0 <= k,
        1 <= n,
    ensures
        0 <= k % n < n,
        (k + 1) % n == if k % n + 1 == n {
            0int
        } else {
            k % n + 1
        },
{
    vstd::arithmetic::div_mod::lemma_fundamental_div_mod(k, n);
    vstd::arithmetic::div_mod::lemma_mod_bound(k, n);
    let q = k / n;
    let r = k % n;
    if r + 1 == n {
        assert(k + 1 == (q + 1) * n + 0) by (nonlinear_arith)
            requires
                k == n * q + r,
                r + 1 == n,
        ;
        vstd::arithmetic::div_mod::lemma_fundamental_div_mod_converse(k + 1, n, q + 1, 0);
    } else {
        assert(k + 1 == q * n + (r + 1)) by (nonlinear_arith)
            requires
                k == n * q + r,
        ;
        vstd::arithmetic::div_mod::lemma_fundamental_div_mod_converse(k + 1, n, q, r + 1);
    }
}

/// After newcomers have registered, exactly they and those who were
/// registered before are registered.
pub proof fn lemma_registered_after_arrivals<H>(
    s: Roster<H>,
    room: RoomKey,
    arrivals: Seq<Arrival<H>>,
    id: Seq<char>,
)
    ensures
        has_peer(after_arrivals(s, room, arrivals), id) <==> (has_peer(s, id) || ids_of(
            arrivals,
        ).contains(id)),
    decreases arrivals.len(),
{
    if arrivals.len() > 0 {
        let earlier = arrivals.drop_last();
        let last = arrivals.last();
        let before = after_arrivals(s, room, earlier);
        lemma_registered_after_arrivals(s, room, earlier, id);
        lemma_registered_after_arrivals(s, room, earlier, last.id);
        lemma_has_peer_after_join(before, last.id, room, last.sender, id);
        assert(ids_of(arrivals)[arrivals.len() - 1] == last.id);
        if ids_of(earlier).contains(id) {
            let i = choose|i: int| 0 <= i < earlier.len() && ids_of(earlier)[i] == id;
            assert(ids_of(arrivals)[i] == id);
        }
        if ids_of(arrivals).contains(id) && id != last.id {
            let i = choose|i: int| 0 <= i < arrivals.len() && ids_of(arrivals)[i] == id;
            assert(ids_of(earlier)[i] == id);
        }
    }
}

proof fn lemma_next_newcomer_is_new<H>(
    s: Roster<H>,
    room: RoomKey,
    arrivals: Seq<Arrival<H>>,
    k: int,
)
    requires
        newcomers(s, arrivals),
        0 <= k < arrivals.len(),
    ensures
        !has_peer(after_arrivals(s, room, arrivals.take(k)), arrivals[k].id),
{
    let earlier = arrivals.take(k);
    lemma_registered_after_arrivals(s, room, earlier, arrivals[k].id);
    if ids_of(earlier).contains(arrivals[k].id) {
        let i = choose|i: int| 0 <= i < earlier.len() && ids_of(earlier)[i] == arrivals[k].id;
        assert(arrivals[i].id != arrivals[k].id);
    }
}

/// Peers that ask for a group of `size` are grouped in the order in which
/// they register, `size` at a time.
///
/// Line up those who wait for such a group, of whom there are fewer than
/// `size`, and behind them the newcomers in the order in which they register
/// for it. When `k` newcomers have registered, those who wait are the last
/// `c % size` of the first `c` in that line, where `c` counts the ones who
/// waited and the `k` who came: every `size` of the line make one group,
/// which is forgotten when its last member arrives, and only the incomplete
/// group at the end is kept. An arrival is told about exactly those who wait
/// when it comes, so it meets the members of its own group that came before
/// it and nobody else, and no peer is ever part of two groups.
pub proof fn lemma_sized_groups_fill_in_order<H>(
    s: Roster<H>,
    size: nat,
    arrivals: Seq<Arrival<H>>,
    k: int,
)
    requires
        size >= 1,
        members(s, RoomKey::Next(size)).len() < size,
        newcomers(s, arrivals),
        0 <= k <= arrivals.len(),
    ensures
        ({
            let room = RoomKey::Next(size);
            let line = members(s, room) + ids_of(arrivals);
            let c = members(s, room).len() + k;
            &&& 0 <= c % (size as int) <= c
            &&& members(after_arrivals(s, room, arrivals.take(k)), room) == line.subrange(
                c - c % (size as int),
                c,
            )
        }),
    decreases k,
{
    let room = RoomKey::Next(size);
    let n = size as int;
    let m = members(s, room).len() as int;
    let line = members(s, room) + ids_of(arrivals);
    let c = m + k;
    if k == 0 {
        assert(arrivals.take(0) =~= Seq::<Arrival<H>>::empty());
        vstd::arithmetic::div_mod::lemma_small_mod(m as nat, size);
        assert(members(s, room) =~= line.subrange(0, m));
    } else {
        let j = k - 1;
        lemma_sized_groups_fill_in_order(s, size, arrivals, j);
        lemma_next_remainder(m + j, n);
        lemma_next_newcomer_is_new(s, room, arrivals, j);
        let before = after_arrivals(s, room, arrivals.take(j));
        let last = arrivals[j];
        assert(arrivals.take(k).drop_last() =~= arrivals.take(j));
        assert(arrivals.take(k).last() == last);
        let after = after_arrivals(s, room, arrivals.take(k));
        assert(after == after_join(before, last.id, room, last.sender));
        assert(members(before, room).len() == (m + j) % n);
        assert(line[m + j] == last.id);
        if completes(before, room) {
            lemma_members_dissolved(before, room, room);
            lemma_members_push(
                dissolved(before, room),
                PeerSpec { id: last.id, room, waiting: false, sender: last.sender },
                room,
            );
            assert(members(after, room) =~= line.subrange(c - c % n, c));
        } else {
            lemma_members_push(
                before,
                PeerSpec { id: last.id, room, waiting: true, sender: last.sender },
                room,
            );
            assert(members(after, room) =~= line.subrange(c - c % n, c));
        }
    }
}

/// As many newcomers as a group takes, registering in any order where nobody
/// waits, make exactly one group and leave nobody behind: each of them is
/// told about all who registered before it, so the last one meets all the
/// others, and when all have registered nobody waits any more.
pub proof fn lemma_full_group_completes<H>(s: Roster<H>, size: nat, arrivals: Seq<Arrival<H>>)
    requires
        size >= 1,
        members(s, RoomKey::Next(size)).len() == 0,
        newcomers(s, arrivals),
        arrivals.len() == size,
    ensures
        forall|k: int|
            0 <= k < size ==> #[trigger] members(
                after_arrivals(s, RoomKey::Next(size), arrivals.take(k)),
                RoomKey::Next(size),
            ) == ids_of(arrivals).take(k),
        members(after_arrivals(s, RoomKey::Next(size), arrivals), RoomKey::Next(size)).len() == 0,
{
    let room = RoomKey::Next(size);
    assert forall|k: int| 0 <= k < size implies #[trigger] members(
        after_arrivals(s, room, arrivals.take(k)),
        room,
    ) == ids_of(arrivals).take(k) by {
        lemma_sized_groups_fill_in_order(s, size, arrivals, k);
        vstd::arithmetic::div_mod::lemma_small_mod(k as nat, size);
        assert((members(s, room) + ids_of(arrivals)).subrange(0, k) =~= ids_of(arrivals).take(k));
    }
    lemma_sized_groups_fill_in_order(s, size, arrivals, size as int);
    vstd::arithmetic::div_mod::lemma_mod_self_0(size as int);
    assert(arrivals.take(size as int) =~= arrivals);
}

/// A named room keeps everyone, in the order in which they registered: when
/// `k` newcomers have registered for it, its members are those it had before
/// followed by these `k`. Each arrival is told about exactly the members at
/// the time it comes, so it is announced to everyone before it and to nobody
/// after it.
pub proof fn lemma_named_room_grows_in_order<H>(
    s: Roster<H>,
    name: Seq<char>,
    arrivals: Seq<Arrival<H>>,
    k: int,
)
    requires
        newcomers(s, arrivals),
        0 <= k <= arrivals.len(),
    ensures
        members(after_arrivals(s, RoomKey::Id(name), arrivals.take(k)), RoomKey::Id(name))
            == members(s, RoomKey::Id(name)) + ids_of(arrivals).take(k),
    decreases k,
{
    let room = RoomKey::Id(name);
    if k == 0 {
        assert(arrivals.take(0) =~= Seq::<Arrival<H>>::empty());
        assert(members(s, room) =~= members(s, room) + ids_of(arrivals).take(0));
    } else {
        let j = k - 1;
        lemma_named_room_grows_in_order(s, name, arrivals, j);
        lemma_next_newcomer_is_new(s, room, arrivals, j);
        let before = after_arrivals(s, room, arrivals.take(j));
        let last = arrivals[j];
        assert(arrivals.take(k).drop_last() =~= arrivals.take(j));
        assert(arrivals.take(k).last() == last);
        lemma_members_push(
            before,
            PeerSpec { id: last.id, room, waiting: true, sender: last.sender },
            room,
        );
        assert(members(after_arrivals(s, room, arrivals.take(k)), room) =~= members(s, room)
            + ids_of(arrivals).take(k));
    }
}

/// Whoever is listed for a room is a registered peer that asked for that
/// room and still waits there.
pub proof fn lemma_listed_peer<H>(s: Roster<H>, room: RoomKey, id: Seq<char>) -> (i: int)
    requires
        members(s, room).contains(id),
    ensures
        0 <= i < s.len(),
        s[i].id == id,
        s[i].room == room,
        s[i].waiting,
    decreases s.len(),
{
    let k = choose|k: int| 0 <= k < members(s, room).len() && members(s, room)[k] == id;
    if s.last().waiting && s.last().room == room && k == members(s, room).len() - 1 {
        s.len() - 1
    } else {
        assert(members(s.drop_last(), room)[k] == id);
        lemma_listed_peer(s.drop_last(), room, id)
    }
}

/// No peer is listed in two rooms: the matching index holds a peer for the
/// room it asked for, or not at all.
pub proof fn lemma_listed_in_one_room<H>(s: Roster<H>, a: RoomKey, b: RoomKey, id: Seq<char>)
    requires
        unique_ids(s),
        members(s, a).contains(id),
        members(s, b).contains(id),
    ensures
        a == b,
{
    let i = lemma_listed_peer(s, a, id);
    let j = lemma_listed_peer(s, b, id);
    if i < j {
        assert(s[i].id != s[j].id);
    } else if j < i {
        assert(s[j].id != s[i].id);
    }
}

/// A peer that registers is not among those who are told about it.
pub proof fn lemma_newcomer_is_not_told<H>(s: Roster<H>, room: RoomKey, id: Seq<char>)
    requires
        !has_peer(s, id),
    ensures
        !members(s, room).contains(id),
{
    if members(s, room).contains(id) {
        lemma_members_registered(s, room, id);
    }
}

/// Nobody is listed twice in a room, so a newcomer is announced to each
/// member once.
pub proof fn lemma_members_listed_once<H>(s: Roster<H>, room: RoomKey)
    requires
        unique_ids(s),
    ensures
        members(s, room).no_duplicates(),
    decreases s.len(),
{
    if s.len() > 0 {
        let rest = s.drop_last();
        assert forall|i: int, j: int| 0 <= i < j < rest.len() implies (#[trigger] rest[i]).id != (
        #[trigger] rest[j]).id by {
            assert(s[i].id != s[j].id);
        }
        lemma_members_listed_once(rest, room);
        if s.last().waiting && s.last().room == room {
            if members(rest, room).contains(s.last().id) {
                lemma_members_registered(rest, room, s.last().id);
                let i = choose|i: int| 0 <= i < rest.len() && (#[trigger] rest[i]).id == s.last().id;
                assert(s[i].id != s[s.len() - 1].id);
            }
        }
    }
}

/// When a peer registers under an identifier that nobody holds, every peer
/// that waits in its room is sent one `NewPeer` event that names the
/// newcomer, in the order in which they wait; no two of these events go to
/// the same peer, and none goes to the newcomer.
pub proof fn lemma_newcomer_announced_once_to_each<H, S>(
    roster: Roster<H>,
    room: RoomKey,
    sender: H,
    id: Seq<char>,
)
    requires
        unique_ids(roster),
        !has_peer(roster, id),
    ensures
        ({
            let session = SessionSpec::AwaitingIdentity { room, sender };
            let t = transition::<H, S>(session, roster, Ok(RequestSpec::Uuid(id)));
            let present = members(roster, room);
            &&& t.outcome == Outcome::Registered
            &&& t.session == SessionSpec::<H>::Active { uuid: id }
            &&& t.outgoing.len() == present.len()
            &&& forall|i: int|
                0 <= i < present.len() ==> #[trigger] t.outgoing[i] == (OutgoingSpec::<S> {
                    receiver: present[i],
                    event: EventSpec::NewPeer(id),
                })
            &&& forall|i: int| 0 <= i < present.len() ==> (#[trigger] t.outgoing[i]).receiver != id
            &&& forall|i: int, j: int|
                0 <= i < j < present.len() ==> (#[trigger] t.outgoing[i]).receiver != (
                #[trigger] t.outgoing[j]).receiver
        }),
{
    let present = members(roster, room);
    lemma_newcomer_is_not_told(roster, room, id);
    lemma_members_listed_once(roster, room);
    assert forall|i: int| 0 <= i < present.len() implies present[i] != id by {
        assert(present.contains(present[i]));
    }
}

/// A signal from a registered peer reaches its receiver, if that one is
/// registered, as one event that names the sender and carries the data as
/// it came; if the receiver is not registered no event is produced. Either
/// way the registry and the sender's session stay as they were.
pub proof fn lemma_signal_reaches_receiver_only<H, S>(
    roster: Roster<H>,
    sender: Seq<char>,
    receiver: Seq<char>,
    data: S,
)
    ensures
        ({
            let session = SessionSpec::<H>::Active { uuid: sender };
            let t = transition(session, roster, Ok(RequestSpec::Signal { receiver, data }));
            &&& t.session == session
            &&& t.roster == roster
            &&& has_peer(roster, receiver) ==> t.outcome == Outcome::Relayed && t.outgoing
                == seq![relayed(sender, receiver, data)]
            &&& !has_peer(roster, receiver) ==> t.outcome == Outcome::UnknownReceiver
                && t.outgoing == Seq::<OutgoingSpec<S>>::empty()
        }),
{
}

/// Every event that a session hands out is addressed to a peer that is
/// registered when the session has done its step, so its handle is there
/// to be found.
pub proof fn lemma_events_reach_registered<H, S>(
    session: SessionSpec<H>,
    roster: Roster<H>,
    item: Result<RequestSpec<S>, RequestError>,
    i: int,
)
    requires
        0 <= i < transition(session, roster, item).outgoing.len(),
    ensures
        has_peer(
            transition(session, roster, item).roster,
            transition(session, roster, item).outgoing[i].receiver,
        ),
{
    let t = transition(session, roster, item);
    if t.outcome == Outcome::Registered {
        match (session, item) {
            (SessionSpec::AwaitingIdentity { room, sender }, Ok(RequestSpec::Uuid(id))) => {
                let receiver = members(roster, room)[i];
                assert(members(roster, room).contains(receiver));
                lemma_members_registered(roster, room, receiver);
                lemma_has_peer_after_join(roster, id, room, sender, receiver);
            },
            _ => {},
        }
    }
}

/// Removing a peer a second time changes nothing, and once removed the peer
/// cannot be found: there is no handle to send to.
pub proof fn lemma_leave_twice<H>(s: Roster<H>, id: Seq<char>)
    requires
        well_formed(s),
    ensures
        !has_peer(after_leave(s, id), id),
        sender_of(after_leave(s, id), id) is None,
        after_leave(after_leave(s, id), id) == after_leave(s, id),
{
    lemma_leave_keeps_well_formed(s, id);
}

/// A peer that leaves is taken off the list of its room; whoever else is
/// listed there, or in any other room, stays listed, in the same order.
pub proof fn lemma_leave_unlists<H>(s: Roster<H>, id: Seq<char>, room: RoomKey)
    requires
        well_formed(s),
    ensures
        members(after_leave(s, id), room) == others(members(s, room), id),
{
    if has_peer(s, id) {
        lemma_members_remove(s, position(s, id), room);
    } else {
        lemma_newcomer_is_not_told(s, room, id);
        lemma_others_of_absent(members(s, room), id);
    }
}

/// A peer that is not registered does not come back because someone else
/// registers.
pub proof fn lemma_absent_stays_absent<H>(
    s: Roster<H>,
    id: Seq<char>,
    other: Seq<char>,
    room: RoomKey,
    sender: H,
)
    requires
        !has_peer(s, id),
        other != id,
    ensures
        !has_peer(after_register(s, other, room, sender), id),
{
    lemma_has_peer_after_join(s, other, room, sender, id);
}

} // verus!
