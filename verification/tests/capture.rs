use go_rules::capture::Capture;
use go_rules::color::Color;
use go_rules::mask::Mask;
use go_rules::state::State;

#[test]
fn capture_captures_one_stone() {
    let black = Mask::new([
        0b010,
        0b101,
        0b010,
    ]);

    let white = Mask::new([
        0b000,
        0b010,
        0b000,
    ]);

    let mut state = State::new(black, white);
    let mut capture = Capture::new(&mut state, Color::Black);
    assert!(capture.try_capture(1, 1));

    let expected_black = Mask::new([
        0b010,
        0b101,
        0b010,
    ]);
    assert_eq!(*state.black_mask(), expected_black);
    assert_eq!(*state.white_mask(), Mask::empty());
}

#[test]
fn captures_one_stone() {
    let black = Mask::new([
        0b010,
        0b101,
        0b010,
    ]);

    let white = Mask::new([
        0b000,
        0b010,
        0b000,
    ]);

    let mut state = State::new(black, white);
    let mut capture = Capture::new(&mut state, Color::Black);
    assert!(capture.try_capture(1, 1));
    assert_eq!(*state.black_mask(), black);
    assert_eq!(*state.white_mask(), Mask::empty());
}

#[test]
fn captures_dumpling() {
    let black = Mask::new([
        0b01110,
        0b10001,
        0b10001,
        0b10001,
        0b01110,
    ]);

    let white = Mask::new([
        0b00000,
        0b01110,
        0b01110,
        0b01110,
        0b00000,
    ]);

    let mut state = State::new(black, white);
    let mut capture = Capture::new(&mut state, Color::Black);
    assert!(capture.try_capture(1, 1));
    assert_eq!(*state.black_mask(), black);
    assert_eq!(*state.white_mask(), Mask::empty());
}

#[test]
fn dont_capture_group_with_liberties() {
    let black = Mask::new([
        0b01010,
        0b10001,
        0b10001,
        0b10001,
        0b01110,
    ]);

    let white = Mask::new([
        0b00000,
        0b01110,
        0b01110,
        0b01110,
        0b00000,
    ]);

    let mut state = State::new(black, white);
    let mut capture = Capture::new(&mut state, Color::Black);
    assert!(!capture.try_capture(1, 1));
    assert_eq!(*state.black_mask(), black);
    assert_eq!(*state.white_mask(), white);
}

#[test]
fn white_captures_too() {
    let white = Mask::new([0b10, 0b01]);
    let black = Mask::new([0b01]);
    let mut state = State::new(black, white);
    let mut capture = Capture::new(&mut state, Color::White);
    assert!(capture.try_capture(0, 0));
    assert_eq!(*state.black_mask(), Mask::empty());
    assert_eq!(*state.white_mask(), white);
}

#[test]
fn capture_takes_one_group_and_leaves_the_others() {
    let black = Mask::new([
        0b01010,
        0b10101,
        0b01010,
    ]);
    let white = Mask::new([
        0b00000,
        0b01010,
        0b00000,
    ]);
    let mut state = State::new(black, white);
    let mut capture = Capture::new(&mut state, Color::Black);
    assert!(capture.try_capture(1, 1));
    assert_eq!(*state.white_mask(), Mask::new([0b00000, 0b01000, 0b00000]));
    assert_eq!(*state.black_mask(), black);
}

#[test]
fn capture_of_an_empty_intersection_takes_nothing() {
    let black = Mask::new([0b010, 0b101, 0b010]);
    let white = Mask::new([0b000, 0b000, 0b000, 0b111]);
    let mut state = State::new(black, white);
    let mut capture = Capture::new(&mut state, Color::Black);
    // The group at an intersection without a white stone is empty: it has
    // no liberty, and there is nothing to take.
    assert!(capture.try_capture(1, 1));
    assert!(capture.try_capture(0, 1));
    assert_eq!(*state.black_mask(), black);
    assert_eq!(*state.white_mask(), white);
}

#[test]
fn capture_twice_is_capture_once() {
    let black = Mask::new([0b0110, 0b1001, 0b0110]);
    let white = Mask::new([0b0000, 0b0110, 0b0000]);
    let mut state = State::new(black, white);
    let mut capture = Capture::new(&mut state, Color::Black);
    assert!(capture.try_capture(1, 1));
    assert!(capture.try_capture(2, 1));
    assert_eq!(*state.black_mask(), black);
    assert_eq!(*state.white_mask(), Mask::empty());
}
