use game_logic::server::{Action, JoinRequest, Message, PlayerRecord, Server};

fn record(id: u64, endpoint: u64, name: &str) -> PlayerRecord {
    PlayerRecord { id, endpoint, name: name.to_string() }
}

fn sends_to(actions: &[Action], to: u64) -> Vec<&Message> {
    actions
        .iter()
        .filter_map(|a| match a {
            Action::Send { to: t, message } if *t == to => Some(message),
            _ => None,
        })
        .collect()
}

#[test]
fn first_player_gets_empty_world() {
    let mut s = Server::new();
    let actions = s.connect_batch(vec![record(7, 100, "ann")]);
    assert_eq!(actions.len(), 2);
    match &actions[0] {
        Action::Send { to: 100, message: Message::WorldData { your_name, your_id, players } } => {
            assert_eq!(your_name, "ann");
            assert_eq!(*your_id, 7);
            assert!(players.is_empty());
        }
        _ => panic!("expected the welcome first"),
    }
    match &actions[1] {
        Action::Spawn { id: 7, endpoint: 100, name } => assert_eq!(name, "ann"),
        _ => panic!("expected the spawn"),
    }
    assert_eq!(s.missed_beats(7), Some(0));
    assert_eq!(s.player_at(100), Some(7));
    // the entity is created at the end of the frame
    assert!(s.players().is_empty());
    s.end_frame();
    assert_eq!(s.players().len(), 1);
}

#[test]
fn present_players_hear_of_newcomer_and_newcomer_learns_of_them() {
    let mut s = Server::new();
    s.connect_batch(vec![record(1, 10, "a"), record(2, 20, "b")]);
    s.end_frame();
    let actions = s.connect_batch(vec![record(3, 30, "c")]);
    // two notices, the welcome, the spawn
    assert_eq!(actions.len(), 4);
    for (i, to) in [10u64, 20].iter().enumerate() {
        match &actions[i] {
            Action::Send { to: t, message: Message::PlayerConnected { id: 3, name } } => {
                assert_eq!(t, to);
                assert_eq!(name, "c");
            }
            _ => panic!("expected a notice"),
        }
    }
    match &actions[2] {
        Action::Send { to: 30, message: Message::WorldData { players, your_id: 3, .. } } => {
            let ids: Vec<u64> = players.iter().map(|p| p.id).collect();
            assert_eq!(ids, vec![1, 2]);
            assert_eq!(players[1].name, "b");
        }
        _ => panic!("expected the welcome"),
    }
}

#[test]
fn players_joining_in_one_frame_do_not_see_each_other() {
    let mut s = Server::new();
    let actions = s.connect_batch(vec![record(1, 10, "a"), record(2, 20, "b")]);
    assert_eq!(actions.len(), 4);
    assert!(sends_to(&actions, 10).iter().all(|m| !matches!(m, Message::PlayerConnected { .. })));
    match sends_to(&actions, 20)[0] {
        Message::WorldData { players, .. } => assert!(players.is_empty()),
        _ => panic!("expected the welcome"),
    }
    s.end_frame();
    assert_eq!(s.players().len(), 2);
}

#[test]
fn silent_player_times_out_on_the_sixteenth_check() {
    let mut s = Server::new();
    s.connect_batch(vec![record(5, 50, "e")]);
    s.end_frame();
    for _ in 0..15 {
        assert!(s.check_heartbeats().is_empty());
    }
    assert_eq!(s.missed_beats(5), Some(15));
    assert_eq!(s.check_heartbeats(), vec![5]);
    assert_eq!(s.missed_beats(5), Some(16));
    // until it is disconnected, it keeps being reported
    assert_eq!(s.check_heartbeats(), vec![5]);
}

#[test]
fn heartbeat_resets_the_count() {
    let mut s = Server::new();
    s.connect_batch(vec![record(5, 50, "e"), record(6, 60, "f")]);
    s.end_frame();
    for _ in 0..10 {
        s.check_heartbeats();
    }
    s.record_heartbeat(50);
    assert_eq!(s.missed_beats(5), Some(0));
    assert_eq!(s.missed_beats(6), Some(10));
    for _ in 0..6 {
        s.check_heartbeats();
    }
    let mut expired = s.check_heartbeats();
    expired.sort();
    assert_eq!(expired, vec![6]);
}

#[test]
fn heartbeat_from_unknown_endpoint_changes_nothing() {
    let mut s = Server::new();
    s.connect_batch(vec![record(5, 50, "e")]);
    s.end_frame();
    s.check_heartbeats();
    s.record_heartbeat(99);
    assert_eq!(s.missed_beats(5), Some(1));
}

#[test]
fn disconnect_notifies_everyone_and_forgets_the_player() {
    let mut s = Server::new();
    s.connect_batch(vec![record(1, 10, "a"), record(2, 20, "b")]);
    s.end_frame();
    let actions = s.disconnect_batch(vec![2]);
    s.end_frame();
    assert_eq!(actions.len(), 3);
    assert!(matches!(actions[0], Action::Send { to: 10, message: Message::PlayerDisconnected { id: 2 } }));
    assert!(matches!(actions[1], Action::Send { to: 20, message: Message::PlayerDisconnected { id: 2 } }));
    assert!(matches!(actions[2], Action::Despawn { id: 2 }));
    assert_eq!(s.missed_beats(2), None);
    assert_eq!(s.missed_beats(1), Some(0));
    assert_eq!(s.players().len(), 1);
    assert_eq!(s.players()[0].id, 1);
    // the endpoint still names the departed player
    assert_eq!(s.player_at(20), Some(2));
    assert!(s.check_heartbeats().is_empty());
}

#[test]
fn departures_in_one_frame_reach_the_players_present_before_it() {
    let mut s = Server::new();
    s.connect_batch(vec![record(1, 10, "a"), record(2, 20, "b"), record(3, 30, "c")]);
    s.end_frame();
    let actions = s.disconnect_batch(vec![1, 2]);
    s.end_frame();
    // each departure: three notices and one despawn
    assert_eq!(actions.len(), 8);
    assert_eq!(sends_to(&actions, 10).len(), 2);
    assert_eq!(s.players().len(), 1);
    assert_eq!(s.players()[0].id, 3);
}

#[test]
fn movement_is_forwarded_to_the_others() {
    let mut s = Server::new();
    s.connect_batch(vec![record(1, 10, "a"), record(2, 20, "b"), record(3, 30, "c")]);
    s.end_frame();
    let actions = s.route_movement(20, false);
    assert_eq!(actions.len(), 2);
    assert!(matches!(actions[0], Action::Send { to: 10, message: Message::SomeoneMoved { id: 2 } }));
    assert!(matches!(actions[1], Action::Send { to: 30, message: Message::SomeoneMoved { id: 2 } }));
}

#[test]
fn transform_movement_updates_the_mover() {
    let mut s = Server::new();
    s.connect_batch(vec![record(1, 10, "a"), record(2, 20, "b")]);
    s.end_frame();
    let actions = s.route_movement(10, true);
    assert_eq!(actions.len(), 2);
    assert!(matches!(actions[0], Action::SetTransform { id: 1 }));
    assert!(matches!(actions[1], Action::Send { to: 20, message: Message::SomeoneMoved { id: 1 } }));
}

#[test]
fn movement_from_unknown_endpoint_is_dropped() {
    let mut s = Server::new();
    s.connect_batch(vec![record(1, 10, "a")]);
    s.end_frame();
    assert!(s.route_movement(77, true).is_empty());
}

#[test]
fn movement_of_departed_player_reaches_everyone() {
    let mut s = Server::new();
    s.connect_batch(vec![record(1, 10, "a"), record(2, 20, "b")]);
    s.end_frame();
    s.disconnect_batch(vec![2]);
    s.end_frame();
    let actions = s.route_movement(20, true);
    assert_eq!(actions.len(), 1);
    assert!(matches!(actions[0], Action::Send { to: 10, message: Message::SomeoneMoved { id: 2 } }));
}

#[test]
fn join_then_leave_keeps_endpoint() {
    let mut s = Server::new();
    s.connect_batch(vec![record(4, 40, "d")]);
    s.end_frame();
    s.disconnect_batch(vec![4]);
    s.end_frame();
    assert_eq!(s.missed_beats(4), None);
    assert_eq!(s.player_at(40), Some(4));
    assert!(s.players().is_empty());
}

#[test]
fn named_request_keeps_its_name() {
    let mut s = Server::new();
    let (joined, actions) = s.connect_players(vec![JoinRequest { endpoint: 8, name: Some("zed".to_string()) }]);
    assert_eq!(joined.len(), 1);
    assert_eq!(joined[0].name, "zed");
    assert_eq!(joined[0].endpoint, 8);
    assert_eq!(s.player_at(8), Some(joined[0].id));
    assert_eq!(s.missed_beats(joined[0].id), Some(0));
    assert_eq!(actions.len(), 2);
}

#[test]
fn unnamed_request_gets_numbered_name() {
    let mut s = Server::new();
    let (joined, _) = s.connect_players(vec![
        JoinRequest { endpoint: 8, name: None },
        JoinRequest { endpoint: 9, name: None },
    ]);
    assert_eq!(joined.len(), 2);
    for p in &joined {
        let rest = p.name.strip_prefix("Player #").expect("default name");
        let n: u32 = rest.parse().unwrap();
        assert!((1..10000).contains(&n));
        assert_eq!(rest, n.to_string());
    }
    s.end_frame();
    assert_eq!(s.players().len(), 2);
}

#[test]
fn heartbeat_count_wraps_around() {
    let mut s = Server::new();
    s.connect_batch(vec![record(1, 10, "a")]);
    s.end_frame();
    for _ in 0..(i16::MAX as u32) {
        s.check_heartbeats();
    }
    assert_eq!(s.missed_beats(1), Some(i16::MAX));
    assert_eq!(s.check_heartbeats(), vec![1]);
    assert_eq!(s.missed_beats(1), Some(i16::MIN));
    assert!(s.check_heartbeats().is_empty());
}

#[test]
fn joining_player_is_not_reached_in_its_own_frame() {
    let mut s = Server::new();
    s.connect_batch(vec![record(1, 10, "a")]);
    s.end_frame();
    s.connect_batch(vec![record(2, 20, "b")]);
    // a movement of the present player does not yet reach the newcomer
    let moved = s.route_movement(10, false);
    assert!(moved.is_empty());
    // nor does a departure in the same frame
    let left = s.disconnect_batch(vec![1]);
    assert_eq!(left.len(), 2);
    assert!(matches!(left[0], Action::Send { to: 10, message: Message::PlayerDisconnected { id: 1 } }));
    s.end_frame();
    assert_eq!(s.players().len(), 1);
    assert_eq!(s.players()[0].id, 2);
}

#[test]
fn departing_player_is_reached_until_the_frame_ends() {
    let mut s = Server::new();
    s.connect_batch(vec![record(1, 10, "a"), record(2, 20, "b")]);
    s.end_frame();
    s.disconnect_batch(vec![2]);
    let moved = s.route_movement(10, false);
    assert_eq!(moved.len(), 1);
    assert!(matches!(moved[0], Action::Send { to: 20, message: Message::SomeoneMoved { id: 1 } }));
    s.end_frame();
    assert!(s.route_movement(10, false).is_empty());
}

#[test]
fn movements_of_one_frame_are_routed_one_by_one() {
    let mut s = Server::new();
    s.connect_batch(vec![record(1, 10, "a"), record(2, 20, "b")]);
    s.end_frame();
    let routed = s.route_movements(&vec![(10, true), (10, true), (99, false), (20, false)]);
    assert_eq!(routed.len(), 4);
    assert_eq!(routed[0].len(), 2);
    assert!(matches!(routed[0][0], Action::SetTransform { id: 1 }));
    assert!(matches!(routed[1][1], Action::Send { to: 20, message: Message::SomeoneMoved { id: 1 } }));
    assert!(routed[2].is_empty());
    assert_eq!(routed[3].len(), 1);
    assert!(matches!(routed[3][0], Action::Send { to: 10, message: Message::SomeoneMoved { id: 2 } }));
}

#[test]
fn registry_agrees_with_entities_across_frames() {
    let mut s = Server::new();
    s.connect_batch(vec![record(1, 10, "a"), record(2, 20, "b")]);
    s.end_frame();
    s.connect_batch(vec![record(3, 30, "c")]);
    s.disconnect_batch(vec![1]);
    s.end_frame();
    let ids: Vec<u64> = s.players().iter().map(|p| p.id).collect();
    assert_eq!(ids, vec![2, 3]);
    for p in s.players() {
        assert_eq!(s.player_at(p.endpoint), Some(p.id));
        assert_eq!(s.missed_beats(p.id), Some(0));
    }
    assert_eq!(s.missed_beats(1), None);
}

#[test]
fn departed_player_is_never_reported_amid_other_events() {
    let mut s = Server::new();
    s.connect_batch(vec![record(1, 10, "a"), record(2, 20, "b")]);
    s.end_frame();
    s.disconnect_batch(vec![1]);
    s.end_frame();
    for round in 0..40u64 {
        s.record_heartbeat(10);
        let expired = s.check_heartbeats();
        assert!(!expired.contains(&1));
        if round == 20 {
            s.connect_batch(vec![record(5, 50, "e")]);
            s.end_frame();
        }
    }
    assert_eq!(s.missed_beats(1), None);
}

#[test]
fn silent_player_times_out_amid_other_players_events() {
    let mut s = Server::new();
    s.connect_batch(vec![record(1, 10, "a"), record(2, 20, "b")]);
    s.end_frame();
    for check in 1..=20u32 {
        // the other player keeps talking, joins and leaves happen around
        s.record_heartbeat(20);
        if check == 3 {
            s.connect_batch(vec![record(3, 30, "c")]);
        }
        if check == 7 {
            s.disconnect_batch(vec![3]);
        }
        s.end_frame();
        let expired = s.check_heartbeats();
        assert_eq!(expired.contains(&1), check >= 16);
        assert!(!expired.contains(&2));
        assert_eq!(s.missed_beats(1), Some(check as i16));
    }
}
