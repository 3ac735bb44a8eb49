use matchbox_server::registry::{Peer, State};
use matchbox_server::room::RequestedRoom;

fn named(id: &str) -> RequestedRoom {
    RequestedRoom::Id(id.to_string())
}

fn peer(id: &str, room: RequestedRoom, sender: u32) -> Peer<u32> {
    Peer { uuid: id.to_string(), room, sender }
}

fn join(state: &mut State<u32>, id: &str, room: RequestedRoom) -> Vec<String> {
    match state.add_peer(peer(id, room, 0)) {
        Ok(existing) => existing,
        Err(_) => panic!("identifier taken"),
    }
}

fn ids(list: &[&str]) -> Vec<String> {
    list.iter().map(|id| id.to_string()).collect()
}

#[test]
fn empty_registry_knows_nobody() {
    let state: State<u32> = State::new();
    assert_eq!(state.len(), 0);
    assert!(!state.contains(&"a".to_string()));
    assert!(state.try_send(&"a".to_string()).is_none());
    assert!(state.waiting_in(&named("r")).is_empty());
    let by_default: State<u32> = State::default();
    assert_eq!(by_default.len(), 0);
}

#[test]
fn named_room_reports_members_in_order_of_arrival() {
    let mut state = State::new();
    assert_eq!(join(&mut state, "a", named("r")), ids(&[]));
    assert_eq!(join(&mut state, "b", named("r")), ids(&["a"]));
    assert_eq!(join(&mut state, "c", named("r")), ids(&["a", "b"]));
    assert_eq!(join(&mut state, "d", named("r")), ids(&["a", "b", "c"]));
    assert_eq!(state.waiting_in(&named("r")), ids(&["a", "b", "c", "d"]));
    assert_eq!(state.len(), 4);
}

#[test]
fn named_rooms_are_apart() {
    let mut state = State::new();
    assert_eq!(join(&mut state, "a", named("r")), ids(&[]));
    assert_eq!(join(&mut state, "x", named("s")), ids(&[]));
    assert_eq!(join(&mut state, "b", named("r")), ids(&["a"]));
    assert_eq!(join(&mut state, "y", named("s")), ids(&["x"]));
    assert_eq!(join(&mut state, "n", RequestedRoom::Next(3)), ids(&[]));
    assert_eq!(state.waiting_in(&named("r")), ids(&["a", "b"]));
    assert_eq!(state.waiting_in(&named("s")), ids(&["x", "y"]));
    assert_eq!(state.waiting_in(&RequestedRoom::Next(3)), ids(&["n"]));
}

#[test]
fn a_room_named_like_a_size_is_not_that_group() {
    let mut state = State::new();
    assert_eq!(join(&mut state, "a", named("2")), ids(&[]));
    assert_eq!(join(&mut state, "b", RequestedRoom::Next(2)), ids(&[]));
    assert_eq!(join(&mut state, "c", named("2")), ids(&["a"]));
    assert_eq!(join(&mut state, "d", RequestedRoom::Next(2)), ids(&["b"]));
}

#[test]
fn pairs_form_in_order_of_arrival() {
    let mut state = State::new();
    let room = RequestedRoom::Next(2);
    assert_eq!(join(&mut state, "a", room.clone()), ids(&[]));
    assert_eq!(join(&mut state, "b", room.clone()), ids(&["a"]));
    assert!(state.waiting_in(&room).is_empty());
    assert_eq!(join(&mut state, "c", room.clone()), ids(&[]));
    assert_eq!(join(&mut state, "d", room.clone()), ids(&["c"]));
    assert!(state.waiting_in(&room).is_empty());
    assert_eq!(join(&mut state, "e", room.clone()), ids(&[]));
    assert_eq!(state.waiting_in(&room), ids(&["e"]));
    assert_eq!(state.len(), 5);
}

#[test]
fn groups_of_three_with_one_left_over() {
    let mut state = State::new();
    let room = RequestedRoom::Next(3);
    let arrivals = ["u0", "u1", "u2", "u3", "u4", "u5", "u6"];
    for (k, id) in arrivals.iter().enumerate() {
        let met = join(&mut state, id, room.clone());
        let start = k - k % 3;
        assert_eq!(met, ids(&arrivals[start..k]));
    }
    assert_eq!(state.waiting_in(&room), ids(&["u6"]));
}

#[test]
fn a_group_of_one_is_complete_at_once() {
    let mut state = State::new();
    let room = RequestedRoom::Next(1);
    assert_eq!(join(&mut state, "a", room.clone()), ids(&[]));
    assert!(state.waiting_in(&room).is_empty());
    assert_eq!(join(&mut state, "b", room.clone()), ids(&[]));
    assert!(state.waiting_in(&room).is_empty());
    assert!(state.contains(&"a".to_string()));
    assert!(state.contains(&"b".to_string()));
}

#[test]
fn groups_of_different_sizes_are_apart() {
    let mut state = State::new();
    assert_eq!(join(&mut state, "a", RequestedRoom::Next(2)), ids(&[]));
    assert_eq!(join(&mut state, "b", RequestedRoom::Next(3)), ids(&[]));
    assert_eq!(join(&mut state, "c", RequestedRoom::Next(3)), ids(&["b"]));
    assert_eq!(join(&mut state, "d", RequestedRoom::Next(2)), ids(&["a"]));
    assert_eq!(state.waiting_in(&RequestedRoom::Next(3)), ids(&["b", "c"]));
    assert_eq!(join(&mut state, "e", RequestedRoom::Next(3)), ids(&["b", "c"]));
    assert!(state.waiting_in(&RequestedRoom::Next(3)).is_empty());
}

#[test]
fn every_order_of_three_makes_one_group() {
    let orders = [
        ["a", "b", "c"],
        ["a", "c", "b"],
        ["b", "a", "c"],
        ["b", "c", "a"],
        ["c", "a", "b"],
        ["c", "b", "a"],
    ];
    for order in orders {
        let mut state = State::new();
        let room = RequestedRoom::Next(3);
        assert_eq!(join(&mut state, order[0], room.clone()), ids(&[]));
        assert_eq!(join(&mut state, order[1], room.clone()), ids(&order[..1]));
        assert_eq!(join(&mut state, order[2], room.clone()), ids(&order[..2]));
        assert!(state.waiting_in(&room).is_empty());
        assert_eq!(state.len(), 3);
    }
}

#[test]
fn taken_identifier_is_refused_and_handed_back() {
    let mut state = State::new();
    assert!(state.add_peer(peer("a", named("r"), 1)).is_ok());
    match state.add_peer(peer("a", named("s"), 2)) {
        Ok(_) => panic!("registered twice"),
        Err(back) => {
            assert_eq!(back.uuid, "a");
            assert_eq!(back.room, named("s"));
            assert_eq!(back.sender, 2);
        }
    }
    assert_eq!(state.len(), 1);
    assert_eq!(state.try_send(&"a".to_string()), Some(&1));
    assert_eq!(state.waiting_in(&named("r")), ids(&["a"]));
    assert!(state.waiting_in(&named("s")).is_empty());
}

#[test]
fn taken_identifier_fills_no_group() {
    let mut state = State::new();
    let room = RequestedRoom::Next(2);
    assert!(state.add_peer(peer("a", room.clone(), 1)).is_ok());
    assert!(state.add_peer(peer("a", room.clone(), 2)).is_err());
    assert_eq!(state.waiting_in(&room), ids(&["a"]));
    assert_eq!(join(&mut state, "b", room.clone()), ids(&["a"]));
}

#[test]
fn handle_is_found_by_identifier() {
    let mut state = State::new();
    assert!(state.add_peer(peer("a", named("r"), 10)).is_ok());
    assert!(state.add_peer(peer("b", named("r"), 20)).is_ok());
    assert!(state.add_peer(peer("c", RequestedRoom::Next(1), 30)).is_ok());
    assert_eq!(state.try_send(&"a".to_string()), Some(&10));
    assert_eq!(state.try_send(&"b".to_string()), Some(&20));
    assert_eq!(state.try_send(&"c".to_string()), Some(&30));
    assert_eq!(state.try_send(&"d".to_string()), None);
    assert_eq!(state.try_send(&String::new()), None);
}

#[test]
fn removed_peer_is_gone_from_its_room() {
    let mut state = State::new();
    join(&mut state, "a", named("r"));
    join(&mut state, "b", named("r"));
    join(&mut state, "c", named("r"));
    state.remove_peer(&"b".to_string());
    assert!(!state.contains(&"b".to_string()));
    assert_eq!(state.try_send(&"b".to_string()), None);
    assert_eq!(state.len(), 2);
    assert_eq!(join(&mut state, "d", named("r")), ids(&["a", "c"]));
}

#[test]
fn removing_twice_changes_nothing() {
    let mut state = State::new();
    join(&mut state, "a", named("r"));
    join(&mut state, "b", named("r"));
    state.remove_peer(&"a".to_string());
    assert_eq!(state.len(), 1);
    state.remove_peer(&"a".to_string());
    assert_eq!(state.len(), 1);
    state.remove_peer(&"a".to_string());
    assert_eq!(state.len(), 1);
    assert!(!state.contains(&"a".to_string()));
    assert_eq!(state.waiting_in(&named("r")), ids(&["b"]));
    join(&mut state, "c", named("r"));
    assert!(!state.contains(&"a".to_string()));
    assert_eq!(state.try_send(&"a".to_string()), None);
}

#[test]
fn removing_a_stranger_changes_nothing() {
    let mut state = State::new();
    state.remove_peer(&"nobody".to_string());
    assert_eq!(state.len(), 0);
    join(&mut state, "a", RequestedRoom::Next(2));
    state.remove_peer(&"nobody".to_string());
    assert_eq!(state.len(), 1);
    assert_eq!(state.waiting_in(&RequestedRoom::Next(2)), ids(&["a"]));
}

#[test]
fn a_waiting_peer_that_leaves_is_not_matched() {
    let mut state = State::new();
    let room = RequestedRoom::Next(2);
    join(&mut state, "a", room.clone());
    state.remove_peer(&"a".to_string());
    assert_eq!(join(&mut state, "b", room.clone()), ids(&[]));
    assert_eq!(join(&mut state, "c", room.clone()), ids(&["b"]));
    assert!(state.waiting_in(&room).is_empty());
}

#[test]
fn a_matched_peer_that_leaves_disturbs_no_new_group() {
    let mut state = State::new();
    let room = RequestedRoom::Next(2);
    join(&mut state, "a", room.clone());
    join(&mut state, "b", room.clone());
    join(&mut state, "c", room.clone());
    state.remove_peer(&"a".to_string());
    assert_eq!(state.waiting_in(&room), ids(&["c"]));
    assert_eq!(join(&mut state, "d", room.clone()), ids(&["c"]));
    assert!(state.contains(&"b".to_string()));
}

#[test]
fn a_freed_identifier_can_be_taken_again() {
    let mut state = State::new();
    assert!(state.add_peer(peer("a", named("r"), 1)).is_ok());
    state.remove_peer(&"a".to_string());
    assert!(state.add_peer(peer("a", named("s"), 2)).is_ok());
    assert_eq!(state.try_send(&"a".to_string()), Some(&2));
    assert!(state.waiting_in(&named("r")).is_empty());
    assert_eq!(state.waiting_in(&named("s")), ids(&["a"]));
}

#[test]
fn a_group_size_of_zero_keeps_nobody_waiting() {
    let mut state = State::new();
    let room = RequestedRoom::Next(0);
    assert_eq!(join(&mut state, "a", room.clone()), ids(&[]));
    assert_eq!(join(&mut state, "b", room.clone()), ids(&[]));
    assert!(state.waiting_in(&room).is_empty());
    assert_eq!(state.len(), 2);
}
