use drive::input::{
    fast_drop, player_input, record_key_press, AccumulatedInput, DigitalInput, Key, KeyHoldEvent,
    Player, PreviousAccumulatedInput,
};

const SCALE: i64 = 65536;
const LEFT: i64 = -19660800;

fn set_of(keys: &[Key]) -> AccumulatedInput {
    let mut s = AccumulatedInput::new();
    for k in keys {
        s.insert(*k);
    }
    s
}

#[test]
fn test_add_digit() {
    let mut d = DigitalInput::new();
    d.add_digit(Key::Digit1);
    d.add_digit(Key::ArrowDown);
    d.add_digit(Key::Digit9);
    assert_eq!(d.keys, vec![5, 1, 9]);
}

#[test]
fn test_to_x() {
    // "0.5" is the middle of the container
    assert_eq!(DigitalInput::new().to_x(), 0);
    // "0.25" is a quarter of the way across
    let d = DigitalInput { keys: vec![2, 5] };
    assert_eq!(d.to_x(), -9830400);
    // an empty buffer reads as zero: the left wall
    let e = DigitalInput { keys: vec![] };
    assert_eq!(e.to_x(), LEFT);
}

#[test]
fn test_to_display() {
    let d = DigitalInput { keys: vec![5, 1, 3] };
    assert_eq!(d.to_display(), "0.513");
    let e = DigitalInput { keys: vec![] };
    assert_eq!(e.to_display(), "0.");
}

#[test]
fn test_key_set_is_ordered() {
    let mut s = AccumulatedInput::new();
    s.insert(Key::Digit7);
    s.insert(Key::Backspace);
    s.insert(Key::Digit2);
    s.insert(Key::Digit7);
    assert_eq!(s.keys, vec![Key::Digit2, Key::Digit7, Key::Backspace]);
    assert!(s.remove(Key::Digit7));
    assert!(!s.remove(Key::Digit7));
    assert_eq!(s.pop_first(), Some(Key::Digit2));
    assert_eq!(s.pop_first(), Some(Key::Backspace));
    assert_eq!(s.pop_first(), None);
}

#[test]
fn test_record_key_press() {
    let mut s = AccumulatedInput::new();
    record_key_press(&mut s, &vec![Key::ArrowDown, Key::Digit3, Key::ArrowDown]);
    assert_eq!(s.keys, vec![Key::Digit3, Key::ArrowDown]);
}

#[test]
fn test_player_input_enters_digits() {
    let mut player = Player::new();
    let mut input = set_of(&[Key::Digit3, Key::Digit1]);
    let mut previous = PreviousAccumulatedInput(AccumulatedInput::new());
    let out = player_input(&mut player, &mut input, &mut previous);
    // digits drain in key order onto the buffer
    assert_eq!(player.input.keys, vec![5, 1, 3]);
    assert_eq!(out.display, "0.513");
    assert!(out.reset.is_none() && out.drop.is_none() && out.hold.is_none());
    assert_eq!(input.keys.len(), 0);
}

#[test]
fn test_player_input_backspace_deletes() {
    let mut player = Player::new();
    let mut input = set_of(&[Key::Backspace]);
    let mut previous = PreviousAccumulatedInput(AccumulatedInput::new());
    let out = player_input(&mut player, &mut input, &mut previous);
    assert_eq!(player.input.keys, Vec::<u8>::new());
    assert_eq!(out.display, "0.");
    assert_eq!(player.x, LEFT);
    assert!(out.reset.is_none());
}

#[test]
fn test_player_input_shift_backspace_resets() {
    let mut player = Player::new();
    let mut input = set_of(&[Key::Backspace, Key::ShiftLeft]);
    let mut previous = PreviousAccumulatedInput(AccumulatedInput::new());
    let out = player_input(&mut player, &mut input, &mut previous);
    assert!(out.reset.is_some());
    // with the modifier, nothing is deleted
    assert_eq!(player.input.keys, vec![5]);
}

#[test]
fn test_player_input_drop_then_hold() {
    let mut player = Player::new();
    let mut previous = PreviousAccumulatedInput(AccumulatedInput::new());
    // a fresh press drops
    let mut input = set_of(&[Key::ArrowDown]);
    let out = player_input(&mut player, &mut input, &mut previous);
    assert!(out.drop.is_some() && out.hold.is_none());
    // still held on the next step: a hold, not another drop
    let mut input = set_of(&[Key::ArrowDown]);
    let out = player_input(&mut player, &mut input, &mut previous);
    assert!(out.drop.is_none() && out.hold.is_some());
    // released: the edge state clears
    let mut input = AccumulatedInput::new();
    let out = player_input(&mut player, &mut input, &mut previous);
    assert!(out.drop.is_none() && out.hold.is_none());
    let mut input = set_of(&[Key::ArrowDown]);
    let out = player_input(&mut player, &mut input, &mut previous);
    assert!(out.drop.is_some());
}

#[test]
fn test_player_input_nudges_last_digit() {
    let mut player = Player::new();
    let mut input = set_of(&[Key::ArrowRight]);
    let mut previous = PreviousAccumulatedInput(AccumulatedInput::new());
    player_input(&mut player, &mut input, &mut previous);
    assert_eq!(player.input.keys, vec![6]);
    // and the nudge clamps at nine
    for _ in 0..5 {
        let mut input = set_of(&[Key::ArrowRight]);
        player_input(&mut player, &mut input, &mut previous);
    }
    assert_eq!(player.input.keys, vec![9]);
}

#[test]
fn test_player_input_nudges_first_digit_with_control() {
    let mut player = Player::new();
    player.input.keys = vec![1, 2];
    let mut input = set_of(&[Key::ArrowLeft, Key::ControlLeft]);
    let mut previous = PreviousAccumulatedInput(AccumulatedInput::new());
    player_input(&mut player, &mut input, &mut previous);
    assert_eq!(player.input.keys, vec![0, 2]);
}

#[test]
fn test_fast_drop() {
    let armed = vec![KeyHoldEvent(Key::ArrowDown)];
    let out = fast_drop(&armed, true);
    assert!(out.drop.is_some() && out.rearm.is_some());
    // released: the repeat stops and the hold clears
    let out = fast_drop(&armed, false);
    assert!(out.drop.is_none() && out.rearm.is_none());
    // nothing armed, nothing fires
    let out = fast_drop(&vec![], true);
    assert!(out.drop.is_none() && out.rearm.is_none());
}
