use game_logic::movement::{is_moving, movement_intent, JumpCooldown, MovementKeys, JUMP_COOLDOWN_NANOS};
use game_logic::naming::{numbered_player_name, resolve_name};

fn keys(forward: bool, back: bool, left: bool, right: bool) -> MovementKeys {
    MovementKeys { forward, back, left, right }
}

#[test]
fn each_key_alone_moves_one_way() {
    let w = movement_intent(&keys(true, false, false, false));
    assert_eq!((w.back, w.left), (-1, 0));
    let s = movement_intent(&keys(false, true, false, false));
    assert_eq!((s.back, s.left), (1, 0));
    let a = movement_intent(&keys(false, false, true, false));
    assert_eq!((a.back, a.left), (0, 1));
    let d = movement_intent(&keys(false, false, false, true));
    assert_eq!((d.back, d.left), (0, -1));
    assert!(is_moving(&d));
}

#[test]
fn opposite_keys_cancel() {
    let i = movement_intent(&keys(true, true, true, true));
    assert_eq!((i.back, i.left), (0, 0));
    assert!(!is_moving(&i));
    let j = movement_intent(&keys(true, true, false, true));
    assert_eq!((j.back, j.left), (0, -1));
    assert!(is_moving(&j));
}

#[test]
fn no_keys_no_movement() {
    let i = movement_intent(&keys(false, false, false, false));
    assert!(!is_moving(&i));
}

#[test]
fn jump_needs_the_key_held_for_the_whole_cooldown() {
    let mut c = JumpCooldown::new(JUMP_COOLDOWN_NANOS);
    assert!(!c.update(true, 400_000_000));
    assert_eq!(c.elapsed_nanos(), 400_000_000);
    // releasing the key keeps what was accumulated
    assert!(!c.update(false, 5_000_000_000));
    assert_eq!(c.elapsed_nanos(), 400_000_000);
    assert!(!c.update(true, 599_999_999));
    assert!(c.update(true, 1));
    assert_eq!(c.elapsed_nanos(), 0);
    assert!(!c.update(true, 999_999_999));
}

#[test]
fn long_frame_jumps_at_once_and_restarts() {
    let mut c = JumpCooldown::new(10);
    assert!(c.update(true, 1_000));
    assert_eq!(c.elapsed_nanos(), 0);
    assert_eq!(c.duration_nanos(), 10);
}

#[test]
fn requested_name_is_kept_and_missing_one_is_numbered() {
    assert_eq!(resolve_name(Some("bob".to_string()), 4), "bob");
    assert_eq!(resolve_name(None, 42), "Player #42");
    assert_eq!(resolve_name(None, 9999), "Player #9999");
}

#[test]
fn numbered_names_are_decimal() {
    assert_eq!(numbered_player_name(0), "Player #0");
    assert_eq!(numbered_player_name(10), "Player #10");
    assert_eq!(numbered_player_name(u32::MAX), "Player #4294967295");
}

#[test]
fn jumps_are_a_cooldown_of_held_time_apart() {
    let mut c = JumpCooldown::new(100);
    let frames = [(true, 60), (false, 500), (true, 40), (true, 99), (true, 1), (true, 150)];
    let jumps: Vec<bool> = frames.iter().map(|&(p, d)| c.update(p, d)).collect();
    assert_eq!(jumps, vec![false, false, true, false, true, true]);
}
