use go_rules::color::Color;
use go_rules::mask::Mask;
use go_rules::state::State;

#[test]
fn removes_group() {
    let black = Mask::new([
        0b01000010,
        0b11100111,
        0b01010010,
        0b00111000,
        0b00010000,
    ]);
    let mut state = State::new(black, Mask::empty());
    state.remove_group(6, 0);

    let expected = Mask::new([
        0b00000010,
        0b00000111,
        0b00010010,
        0b00111000,
        0b00010000,
    ]);

    assert_eq!(*state.black_mask(), expected);
}

#[test]
fn remove_group_of_an_empty_intersection_changes_nothing() {
    let black = Mask::new([0b011, 0b001]);
    let white = Mask::new([0b100, 0b110]);
    let mut state = State::new(black, white);
    state.remove_group(0, 2);
    assert_eq!(state, State::new(black, white));
    state.remove_group(10, 10);
    assert_eq!(state, State::new(black, white));
}

#[test]
fn remove_group_takes_the_colour_that_stands_there() {
    let black = Mask::new([0b011, 0b001]);
    let white = Mask::new([0b100, 0b110]);
    let mut state = State::new(black, white);
    state.remove_group(2, 0);
    assert_eq!(state, State::new(black, Mask::empty()));
    state.remove_group(0, 0);
    assert_eq!(state, State::new(Mask::empty(), Mask::empty()));
}

#[test]
fn state_get_and_set() {
    let mut state = State::new(Mask::empty(), Mask::empty());
    assert_eq!(state.get(3, 4), None);
    state.set(3, 4, Some(Color::Black));
    assert_eq!(state.get(3, 4), Some(Color::Black));
    assert_eq!(state.get(4, 3), None);
    state.set(18, 0, Some(Color::White));
    assert_eq!(state.get(18, 0), Some(Color::White));
    state.set(3, 4, None);
    assert_eq!(state.get(3, 4), None);
    assert!(state.black_mask().row(4).is_empty());
}

#[test]
fn state_set_replaces_the_other_colour() {
    let mut state = State::new(Mask::new([0b1]), Mask::new([0b10]));
    state.set(0, 0, Some(Color::White));
    assert_eq!(state.get(0, 0), Some(Color::White));
    assert_eq!(*state.black_mask(), Mask::empty());
    assert_eq!(*state.white_mask(), Mask::new([0b11]));
    state.set(1, 0, Some(Color::Black));
    assert_eq!(state.get(1, 0), Some(Color::Black));
    assert_eq!(*state.black_mask(), Mask::new([0b10]));
    assert_eq!(*state.white_mask(), Mask::new([0b01]));
}

#[test]
fn mask_group_by_colour() {
    let black = Mask::new([0b0011, 0b0001]);
    let white = Mask::new([0b1100, 0b0110]);
    let state = State::new(black, white);
    assert_eq!(state.mask_group(0, 0, Color::Black), black);
    assert_eq!(state.mask_group(0, 0, Color::White), Mask::empty());
    assert_eq!(state.mask_group(2, 1, Color::White), white);
    assert_eq!(state.mask_group(2, 1, Color::Black), Mask::empty());
    assert_eq!(state.mask_group(9, 9, Color::Black), Mask::empty());
}

#[test]
fn state_debug_format() {
    let state = State::new(Mask::new([0b001, 0b100]), Mask::new([0b010]));
    let text = state.debug_string();
    let lines: Vec<&str> = text.split('\n').collect();
    assert_eq!(lines.len(), 20);
    assert_eq!(lines[0], "bw                 ");
    assert_eq!(lines[1], "  b                ");
    for line in &lines[2..19] {
        assert_eq!(*line, "                   ");
    }
    assert_eq!(lines[19], "");
}

#[test]
fn opposite_colours() {
    assert_eq!(Color::Black.opposite(), Color::White);
    assert_eq!(Color::White.opposite(), Color::Black);
    assert_eq!(Color::Black.opposite().opposite(), Color::Black);
}

#[test]
fn default_state_is_the_empty_board() {
    let state = State::default();
    assert_eq!(state, State::new(Mask::empty(), Mask::empty()));
    assert_eq!(state.get(0, 0), None);
    assert_eq!(state.get(18, 18), None);
}

#[test]
fn sides_follow_the_colour() {
    let black = Mask::new([0b01]);
    let white = Mask::new([0b10]);
    let mut state = State::new(black, white);
    {
        let (own, other) = state.sides_mut(Color::White);
        assert_eq!(*own, white);
        assert_eq!(*other, black);
        other.set(5, 5);
    }
    assert_eq!(state.get(5, 5), Some(Color::Black));
}
