use go_rules::color::Color;
use go_rules::mask::Mask;
use go_rules::state::State;
use go_rules::tree::{Node, PlaceStoneError, PlacementMode, Tree};

fn ko_position() -> State {
    State::new(
        Mask::new([0b0010, 0b0101, 0b0010]),
        Mask::new([0b0100, 0b1000, 0b0100]),
    )
}

#[test]
fn empty_tree_starts_with_black_on_an_empty_board() {
    let tree = Tree::empty();
    assert_eq!(tree.len(), 1);
    assert_eq!(tree.to_play(), Color::Black);
    assert_eq!(tree.placement_mode(), PlacementMode::Toggle);
    assert_eq!(*tree.current_state(), State::new(Mask::empty(), Mask::empty()));
    for y in 0..19 {
        for x in 0..19 {
            assert_eq!(tree.current_state().get(x, y), None);
        }
    }
}

#[test]
fn seeded_tree_starts_from_its_position() {
    let tree = Tree::with_state(ko_position(), Color::White);
    assert_eq!(tree.len(), 1);
    assert_eq!(tree.to_play(), Color::White);
    assert_eq!(*tree.current_state(), ko_position());
}

#[test]
fn node_keeps_what_it_is_given() {
    let node = Node::new(ko_position(), 7);
    assert_eq!(node.state, ko_position());
    assert_eq!(node.parent, 7);
}

#[test]
fn placed_stone_is_found_where_it_was_put() {
    let mut tree = Tree::empty();
    let mut expected = Color::Black;
    for (x, y) in [(0, 0), (18, 18), (3, 15), (9, 9), (18, 0), (0, 18)] {
        assert_eq!(tree.place_stone(x, y), Ok(()));
        assert_eq!(tree.current_state().get(x, y), Some(expected));
        expected = expected.opposite();
    }
    assert_eq!(tree.len(), 7);
}

#[test]
fn every_intersection_takes_a_first_stone() {
    for y in 0..19 {
        for x in 0..19 {
            let mut tree = Tree::empty();
            assert_eq!(tree.place_stone(x, y), Ok(()));
            assert_eq!(tree.current_state().get(x, y), Some(Color::Black));
            assert_eq!(tree.to_play(), Color::White);
        }
    }
}

#[test]
fn colours_take_turns() {
    let mut tree = Tree::empty();
    assert_eq!(tree.place_stone(3, 3), Ok(()));
    assert_eq!(tree.to_play(), Color::White);
    assert_eq!(tree.place_stone(4, 4), Ok(()));
    assert_eq!(tree.to_play(), Color::Black);
    assert_eq!(tree.current_state().get(3, 3), Some(Color::Black));
    assert_eq!(tree.current_state().get(4, 4), Some(Color::White));
}

#[test]
fn fixed_modes_keep_the_colour_to_play() {
    let mut tree = Tree::empty();
    tree.set_placement_mode(PlacementMode::Black);
    assert_eq!(tree.placement_mode(), PlacementMode::Black);
    assert_eq!(tree.place_stone(3, 3), Ok(()));
    assert_eq!(tree.place_stone(4, 4), Ok(()));
    assert_eq!(tree.to_play(), Color::Black);
    assert_eq!(tree.current_state().get(4, 4), Some(Color::Black));

    let mut tree = Tree::with_state(State::new(Mask::empty(), Mask::empty()), Color::White);
    tree.set_placement_mode(PlacementMode::White);
    assert_eq!(tree.place_stone(3, 3), Ok(()));
    assert_eq!(tree.place_stone(4, 4), Ok(()));
    assert_eq!(tree.to_play(), Color::White);
    assert_eq!(tree.current_state().get(3, 3), Some(Color::White));
    assert_eq!(tree.current_state().get(4, 4), Some(Color::White));

    tree.set_placement_mode(PlacementMode::Toggle);
    assert_eq!(tree.place_stone(5, 5), Ok(()));
    assert_eq!(tree.to_play(), Color::Black);
}

#[test]
fn setting_the_mode_leaves_the_colour_to_play() {
    let mut tree = Tree::empty();
    assert_eq!(tree.place_stone(3, 3), Ok(()));
    tree.set_placement_mode(PlacementMode::Black);
    assert_eq!(tree.to_play(), Color::White);
    assert_eq!(tree.len(), 2);
}

#[test]
fn occupied_intersection_is_refused() {
    let mut tree = Tree::empty();
    assert_eq!(tree.place_stone(3, 3), Ok(()));
    assert_eq!(tree.place_stone(3, 3), Err(PlaceStoneError::AlreadyExists));
    assert_eq!(tree.place_stone(4, 3), Ok(()));
    assert_eq!(tree.place_stone(4, 3), Err(PlaceStoneError::AlreadyExists));
    assert_eq!(tree.place_stone(3, 3), Err(PlaceStoneError::AlreadyExists));
}

#[test]
fn refused_stone_leaves_the_tree_as_it_was() {
    // Occupied.
    let mut tree = Tree::empty();
    assert_eq!(tree.place_stone(3, 3), Ok(()));
    let before = tree.clone();
    assert_eq!(tree.place_stone(3, 3), Err(PlaceStoneError::AlreadyExists));
    assert_eq!(tree, before);

    // Self-capture.
    let mut tree = Tree::with_state(
        State::new(Mask::empty(), Mask::new([0b010, 0b101, 0b010])),
        Color::Black,
    );
    let before = tree.clone();
    assert_eq!(tree.place_stone(1, 1), Err(PlaceStoneError::SelfCapture));
    assert_eq!(tree, before);
    assert_eq!(tree.current_state().get(1, 1), None);

    // Ko.
    let mut tree = Tree::with_state(ko_position(), Color::White);
    assert_eq!(tree.place_stone(1, 1), Ok(()));
    let before = tree.clone();
    assert_eq!(tree.place_stone(2, 1), Err(PlaceStoneError::Ko));
    assert_eq!(tree, before);
    assert_eq!(tree.to_play(), Color::Black);
    assert_eq!(tree.len(), 2);
}

#[test]
fn placement_captures_a_surrounded_stone() {
    let mut tree = Tree::with_state(
        State::new(Mask::new([0b010, 0b100, 0b010]), Mask::new([0b000, 0b010, 0b000])),
        Color::Black,
    );
    assert_eq!(tree.place_stone(0, 1), Ok(()));
    assert_eq!(*tree.current_state().white_mask(), Mask::empty());
    assert_eq!(*tree.current_state().black_mask(), Mask::new([0b010, 0b101, 0b010]));
    assert_eq!(tree.current_state().get(1, 1), None);
}

#[test]
fn placement_captures_a_whole_group() {
    let black = Mask::new([
        0b01110,
        0b10001,
        0b10001,
        0b10001,
        0b01100,
    ]);
    let white = Mask::new([
        0b00000,
        0b01110,
        0b01110,
        0b01110,
        0b00000,
    ]);
    let mut tree = Tree::with_state(State::new(black, white), Color::Black);
    assert_eq!(tree.place_stone(1, 4), Ok(()));
    let mut expected = black;
    expected.set(1, 4);
    assert_eq!(*tree.current_state().black_mask(), expected);
    assert_eq!(*tree.current_state().white_mask(), Mask::empty());
    for y in 1..4 {
        for x in 1..4 {
            assert_eq!(tree.current_state().get(x, y), None);
        }
    }
}

#[test]
fn placement_captures_groups_on_several_sides() {
    // White stones left and right of (2, 1), each with its last liberty
    // there.
    let black = Mask::new([
        0b01010,
        0b10001,
        0b01010,
    ]);
    let white = Mask::new([
        0b00000,
        0b01010,
        0b00000,
    ]);
    let mut tree = Tree::with_state(State::new(black, white), Color::Black);
    assert_eq!(tree.place_stone(2, 1), Ok(()));
    assert_eq!(*tree.current_state().white_mask(), Mask::empty());
    let mut expected = black;
    expected.set(2, 1);
    assert_eq!(*tree.current_state().black_mask(), expected);
}

#[test]
fn placement_leaves_groups_with_liberties() {
    let black = Mask::new([0b010, 0b001]);
    let white = Mask::new([0b000, 0b010]);
    let mut tree = Tree::with_state(State::new(black, white), Color::Black);
    assert_eq!(tree.place_stone(2, 1), Ok(()));
    assert_eq!(*tree.current_state().white_mask(), white);
    assert_eq!(tree.current_state().get(1, 1), Some(Color::White));
}

#[test]
fn stone_without_liberty_that_takes_nothing_is_refused() {
    // In the middle.
    let mut tree = Tree::with_state(
        State::new(Mask::empty(), Mask::new([0b010, 0b101, 0b010])),
        Color::Black,
    );
    assert_eq!(tree.place_stone(1, 1), Err(PlaceStoneError::SelfCapture));

    // In the corner.
    let mut tree = Tree::with_state(
        State::new(Mask::empty(), Mask::new([0b10, 0b01])),
        Color::Black,
    );
    assert_eq!(tree.place_stone(0, 0), Err(PlaceStoneError::SelfCapture));

    // On the edge, white to play.
    let mut black = Mask::empty();
    black.set(18, 3);
    black.set(18, 5);
    black.set(17, 4);
    let mut tree = Tree::with_state(State::new(black, Mask::empty()), Color::White);
    assert_eq!(tree.place_stone(18, 4), Err(PlaceStoneError::SelfCapture));
}

#[test]
fn stone_without_liberty_that_takes_something_is_accepted() {
    let black = Mask::new([0b0010, 0b0101, 0b0010]);
    let white = Mask::new([0b0100, 0b1000, 0b0100]);
    let mut tree = Tree::with_state(State::new(black, white), Color::White);
    assert_eq!(tree.place_stone(1, 1), Ok(()));
    assert_eq!(tree.current_state().get(1, 1), Some(Color::White));
    assert_eq!(tree.current_state().get(2, 1), None);
}

#[test]
fn stone_next_to_a_friend_is_not_self_capture() {
    // Three sides white, one side black: the narrow rule looks at the four
    // neighbours only.
    let black = Mask::new([0b010]);
    let white = Mask::new([0b101, 0b101, 0b010]);
    let mut tree = Tree::with_state(State::new(black, white), Color::Black);
    assert_eq!(tree.place_stone(1, 1), Ok(()));
    assert_eq!(tree.current_state().get(1, 1), Some(Color::Black));
    assert_eq!(tree.current_state().get(1, 0), Some(Color::Black));
}

#[test]
fn stone_next_to_an_empty_intersection_is_not_self_capture() {
    let white = Mask::new([0b010, 0b100, 0b010]);
    let mut tree = Tree::with_state(State::new(Mask::empty(), white), Color::Black);
    assert_eq!(tree.place_stone(1, 1), Ok(()));
}

#[test]
fn ko_capture_and_refused_recapture() {
    let mut tree = Tree::with_state(ko_position(), Color::White);
    assert_eq!(tree.place_stone(1, 1), Ok(()));
    assert_eq!(*tree.current_state().black_mask(), Mask::new([0b0010, 0b0001, 0b0010]));
    assert_eq!(*tree.current_state().white_mask(), Mask::new([0b0100, 0b1010, 0b0100]));
    assert_eq!(tree.place_stone(2, 1), Err(PlaceStoneError::Ko));
    assert_eq!(*tree.current_state().black_mask(), Mask::new([0b0010, 0b0001, 0b0010]));
    assert_eq!(*tree.current_state().white_mask(), Mask::new([0b0100, 0b1010, 0b0100]));
}

#[test]
fn recapture_after_moves_elsewhere_is_no_ko() {
    let mut tree = Tree::with_state(ko_position(), Color::White);
    assert_eq!(tree.place_stone(1, 1), Ok(()));
    assert_eq!(tree.place_stone(2, 1), Err(PlaceStoneError::Ko));
    assert_eq!(tree.place_stone(10, 10), Ok(()));
    assert_eq!(tree.place_stone(11, 11), Ok(()));
    assert_eq!(tree.place_stone(2, 1), Ok(()));
    assert_eq!(tree.current_state().get(2, 1), Some(Color::Black));
    assert_eq!(tree.current_state().get(1, 1), None);
    // Now white may not take back at once.
    assert_eq!(tree.place_stone(1, 1), Err(PlaceStoneError::Ko));
}

#[test]
fn first_move_is_never_ko() {
    // The root has no parent: a capture from it is checked against none.
    let mut tree = Tree::with_state(ko_position(), Color::White);
    assert_eq!(tree.place_stone(1, 1), Ok(()));
    assert_eq!(tree.len(), 2);
}

#[test]
fn history_grows_by_one_for_each_stone() {
    let mut tree = Tree::empty();
    for i in 0..10 {
        assert_eq!(tree.len(), i + 1);
        assert_eq!(tree.place_stone(i, 2 * i), Ok(()));
    }
    assert_eq!(tree.len(), 11);
    assert_eq!(tree.place_stone(0, 0), Err(PlaceStoneError::AlreadyExists));
    assert_eq!(tree.len(), 11);
}
