use vstd::prelude::*;
use crate::capture::Capture;
use crate::color::Color;
use crate::mask::Mask;
use crate::region::{component, lemma_component_inside, on_board};
use crate::rules::{
    after_captures, any_smothered, dead_around, hemmed, lemma_capture_complete,
    lemma_captures_by_group, lemma_captures_change, smothered,
};
use crate::state::State;

verus! {

/// Why a stone may not be placed.
#[derive(Debug, Clone, Copy, PartialEq, Eq, Structural)]
pub enum PlaceStoneError {
    /// The move would bring back the position before the last move.
    Ko,
    /// The stone would stand without a liberty and take nothing.
    SelfCapture,
    /// The intersection already holds a stone.
    AlreadyExists,
}

/// Whose stones are placed as the game goes on.
#[derive(Debug, Clone, Copy, PartialEq, Eq, Structural)]
pub enum PlacementMode {
    Black,
    White,
    Toggle,
}

/// A position in the history, and the index of the one it came from.
#[derive(Debug, Clone, Copy, PartialEq, Eq)]
pub struct Node {
    pub state: State,
    pub parent: usize,
}

impl Node {
    /// The parent index of a position that came from no other.
    pub open spec fn no_parent() -> usize {
        usize::MAX
    }

    /// A position with the index of its parent.
    pub fn new(state: State, parent: usize) -> (node: Node)
        ensures
            node.state == state,
            node.parent == parent,
    {
        Node { state, parent }
    }
}

/// The history of a game: every position that was reached, the one the
/// game stands at, and who plays next.
#[derive(Debug, Clone, PartialEq, Eq)]
pub struct Tree {
    states: Vec<Node>,
    current: usize,
    to_play: Color,
    placement_mode: PlacementMode,
}

impl Tree {
    /// The positions of the history, in the order in which they were added.
    pub closed spec fn nodes(&self) -> Seq<Node> {
        self.states@
    }

    /// The index of the position the game stands at.
    pub closed spec fn cursor(&self) -> int {
        self.current as int
    }

    /// The colour of the next stone.
    pub closed spec fn turn(&self) -> Color {
        self.to_play
    }

    /// Whose stones are placed as the game goes on.
    pub closed spec fn mode(&self) -> PlacementMode {
        self.placement_mode
    }

    /// The history is not empty, the game stands at one of its positions,
    /// every position is sound, and a parent was added before its child.
    pub open spec fn wf(&self) -> bool {
        &&& 0 <= self.cursor() < self.nodes().len()
        &&& forall|i: int| 0 <= i < self.nodes().len() ==> (#[trigger] self.nodes()[i]).state.wf()
        &&& forall|i: int|
            0 <= i < self.nodes().len() ==> {
                ||| (#[trigger] self.nodes()[i]).parent == Node::no_parent()
                ||| self.nodes()[i].parent < i
            }
    }

    /// The position the game stands at.
    pub open spec fn position(&self) -> State {
        self.nodes()[self.cursor()].state
    }

    /// The position that the current one came from, if it came from one.
    pub open spec fn previous(&self) -> Option<State> {
        let parent = self.nodes()[self.cursor()].parent;
        if parent < self.nodes().len() {
            Some(self.nodes()[parent as int].state)
        } else {
            None
        }
    }

    /// The stones of the player to move once a stone stands at `(x, y)`.
    pub open spec fn own_after(&self, x: int, y: int) -> Set<(int, int)> {
        self.position().stones(self.turn())@.insert((x, y))
    }

    /// The stones of the other player before the stone is placed.
    pub open spec fn other_before(&self) -> Set<(int, int)> {
        self.position().stones(self.turn().opposite())@
    }

    /// The stones of the other player once a stone stands at `(x, y)` and
    /// has taken what it takes: every group at one of its four neighbours
    /// that is left without a liberty.
    pub open spec fn other_after(&self, x: int, y: int) -> Set<(int, int)> {
        self.other_before().difference(dead_around(self.other_before(), self.own_after(x, y), x, y))
    }

    /// What the rules say of a stone at `(x, y)`.
    pub open spec fn judge(&self, x: int, y: int) -> Result<(), PlaceStoneError> {
        if self.position().at(x, y) is Some {
            Err(PlaceStoneError::AlreadyExists)
        } else if self.other_after(x, y) == self.other_before() && hemmed(self.other_before(), x, y) {
            Err(PlaceStoneError::SelfCapture)
        } else if self.previous() is Some && self.previous()->Some_0.stones(self.turn())@
            == self.own_after(x, y) && self.previous()->Some_0.stones(self.turn().opposite())@
            == self.other_after(x, y) {
            Err(PlaceStoneError::Ko)
        } else {
            Ok(())
        }
    }

    /// A stone that is placed stands where it was put: no stone takes
    /// itself, and no other stone stands there.
    pub proof fn lemma_placed_stone_stays(&self, x: int, y: int)
        requires
            self.wf(),
            on_board(x, y),
            self.position().at(x, y) is None,
        ensures
            self.own_after(x, y).contains((x, y)),
            !self.other_after(x, y).contains((x, y)),
            self.own_after(x, y).disjoint(self.other_after(x, y)),
    {
        assert(self.nodes()[self.cursor()].state.wf());
    }

    /// A group of the other player at a neighbour of `(x, y)` that the
    /// new stone leaves without a liberty is gone after the move: none of
    /// its stones is on the board, and each intersection where one stood
    /// is empty.
    pub proof fn lemma_capture_empties(&self, x: int, y: int, seed: (int, int), stone: (int, int))
        requires
            self.wf(),
            on_board(x, y),
            self.position().at(x, y) is None,
            seed == (x - 1, y) || seed == (x + 1, y) || seed == (x, y - 1) || seed == (x, y + 1),
            smothered(self.other_before(), self.own_after(x, y), seed.0, seed.1),
            component(self.other_before(), seed).contains(stone),
        ensures
            !self.other_after(x, y).contains(stone),
            !self.own_after(x, y).contains(stone),
    {
        let other = self.other_before();
        let own = self.own_after(x, y);
        assert(self.nodes()[self.cursor()].state.wf());
        lemma_captures_by_group(other, own, x, y);
        lemma_capture_complete(other, own, x, y, seed, stone);
        lemma_component_inside(other, seed);
        assert(other.contains(stone));
    }

    /// A stone whose four neighbours are all off the board or stones of
    /// the other player, and which takes nothing, is refused as
    /// self-capture.
    pub proof fn lemma_self_capture(&self, x: int, y: int)
        requires
            self.wf(),
            on_board(x, y),
            self.position().at(x, y) is None,
            hemmed(self.other_before(), x, y),
            self.other_after(x, y) == self.other_before(),
        ensures
            self.judge(x, y) == Err::<(), PlaceStoneError>(PlaceStoneError::SelfCapture),
    {
    }

    /// A stone is refused as ko exactly when it is refused for no other
    /// reason and would bring back the position that the current one came
    /// from. A position that equals any other of the history, or a game
    /// that stands at its first position, gives no ko.
    pub proof fn lemma_ko(&self, x: int, y: int)
        requires
            self.wf(),
            on_board(x, y),
        ensures
            self.judge(x, y) == Err::<(), PlaceStoneError>(PlaceStoneError::Ko) <==> {
                &&& self.position().at(x, y) is None
                &&& !(hemmed(self.other_before(), x, y) && self.other_after(x, y)
                    == self.other_before())
                &&& self.previous() is Some
                &&& self.previous()->Some_0.stones(self.turn())@ == self.own_after(x, y)
                &&& self.previous()->Some_0.stones(self.turn().opposite())@ == self.other_after(
                    x,
                    y,
                )
            },
            self.previous() is None ==> self.judge(x, y) != Err::<(), PlaceStoneError>(
                PlaceStoneError::Ko,
            ),
    {
    }

    /// A game on the empty board, black to play, the colours taking turns.
    pub fn empty() -> (tree: Tree)
        ensures
            tree.wf(),
            tree.nodes().len() == 1,
            tree.cursor() == 0,
            tree.nodes()[0].parent == Node::no_parent(),
            tree.position().black()@ == Set::<(int, int)>::empty(),
            tree.position().white()@ == Set::<(int, int)>::empty(),
            tree.turn() == Color::Black,
            tree.mode() == PlacementMode::Toggle,
    {
        Tree::with_state(State::new(Mask::empty(), Mask::empty()), Color::Black)
    }

    /// A game that starts from `state` with `to_play` to move, the colours
    /// taking turns.
    pub fn with_state(state: State, to_play: Color) -> (tree: Tree)
        requires
            state.wf(),
        ensures
            tree.wf(),
            tree.nodes().len() == 1,
            tree.cursor() == 0,
            tree.nodes()[0].parent == Node::no_parent(),
            tree.position() == state,
            tree.turn() == to_play,
            tree.mode() == PlacementMode::Toggle,
    {
        let mut states = Vec::new();
        states.push(Node::new(state, usize::MAX));
        Tree { states, current: 0, to_play, placement_mode: PlacementMode::Toggle }
    }

    /// The position the game stands at.
    pub fn current_state(&self) -> (state: &State)
        requires
            self.wf(),
        ensures
            *state == self.position(),
    {
        &self.states[self.current].state
    }

    /// The colour of the next stone.
    pub fn to_play(&self) -> (color: Color)
        ensures
            color == self.turn(),
    {
        self.to_play
    }

    /// Whose stones are placed as the game goes on.
    pub fn placement_mode(&self) -> (mode: PlacementMode)
        ensures
            mode == self.mode(),
    {
        self.placement_mode
    }

    /// How many positions the history holds.
    pub fn len(&self) -> (n: usize)
        ensures
            n == self.nodes().len(),
    {
        self.states.len()
    }

    /// Places a stone of the colour to play at `(x, y)`, takes the groups
    /// next to it that are left without a liberty, and adds the position
    /// to the history as a child of the current one, which it replaces as
    /// the current one. A stone that the rules forbid is refused, and the
    /// history stays as it was.
    pub fn place_stone(&mut self, x: usize, y: usize) -> (result: Result<(), PlaceStoneError>)
        requires
            x <= 18,
            y <= 18,
            old(self).wf(),
        ensures
            final(self).wf(),
            result == old(self).judge(x as int, y as int),
            result is Err ==> *final(self) == *old(self),
            result is Ok ==> {
                let added = final(self).nodes().last();
                &&& final(self).nodes() == old(self).nodes().push(added)
                &&& final(self).cursor() == old(self).nodes().len()
                &&& added.parent == old(self).cursor()
                &&& added.state.stones(old(self).turn())@ == old(self).own_after(x as int, y as int)
                &&& added.state.stones(old(self).turn().opposite())@ == old(self).other_after(
                    x as int,
                    y as int,
                )
                &&& final(self).position().at(x as int, y as int) == Some(old(self).turn())
                &&& final(self).mode() == old(self).mode()
                &&& final(self).turn() == (if old(self).mode() == PlacementMode::Toggle {
                    old(self).turn().opposite()
                } else {
                    old(self).turn()
                })
            },
    {
        let node = self.states[self.current];
        let mut state = node.state;
        let mover = self.to_play;
        let ghost own = self.own_after(x as int, y as int);
        let ghost other = self.other_before();

        if state.get(x, y).is_some() {
            return Err(PlaceStoneError::AlreadyExists);
        }
        state.set(x, y, Some(mover));
        assert(state.stones(mover.opposite())@ =~= other);
        let any = capture_around(&mut state, mover, x, y);
        proof {
            lemma_captures_change(other, own, x as int, y as int);
            lemma_captures_by_group(other, own, x as int, y as int);
        }
        if !any && is_hemmed(&state, mover.opposite(), x, y) {
            return Err(PlaceStoneError::SelfCapture);
        }
        if node.parent < self.states.len() {
            if self.states[node.parent].state == state {
                return Err(PlaceStoneError::Ko);
            }
        }
        self.states.push(Node::new(state, self.current));
        self.current = self.states.len() - 1;
        if self.placement_mode == PlacementMode::Toggle {
            self.to_play = self.to_play.opposite();
        }
        Ok(())
    }

    /// Sets whose stones are placed as the game goes on. The colour of the
    /// next stone stays as it is.
    pub fn set_placement_mode(&mut self, mode: PlacementMode)
        ensures
            final(self).mode() == mode,
            final(self).nodes() == old(self).nodes(),
            final(self).cursor() == old(self).cursor(),
            final(self).turn() == old(self).turn(),
    {
        self.placement_mode = mode;
    }
}

/// Lets `mover` try the groups at the four neighbours of `(x, y)` in turn,
/// and says whether a try found a group without a liberty.
fn capture_around(state: &mut State, mover: Color, x: usize, y: usize) -> (any: bool)
    requires
        x <= 18,
        y <= 18,
        old(state).wf(),
    ensures
        final(state).wf(),
        final(state).stones(mover) == old(state).stones(mover),
        final(state).stones(mover.opposite())@ == after_captures(
            old(state).stones(mover.opposite())@,
            old(state).stones(mover)@,
            x as int,
            y as int,
        ),
        any == any_smothered(
            old(state).stones(mover.opposite())@,
            old(state).stones(mover)@,
            x as int,
            y as int,
        ),
{
    let mut capture = Capture::new(state, mover);
    let left = x > 0 && capture.try_capture(x - 1, y);
    let right = x < 18 && capture.try_capture(x + 1, y);
    let down = y > 0 && capture.try_capture(x, y - 1);
    let up = y < 18 && capture.try_capture(x, y + 1);
    left || right || down || up
}

/// Whether each neighbour of `(x, y)` is off the board or holds a stone
/// of `rival`.
fn is_hemmed(state: &State, rival: Color, x: usize, y: usize) -> (closed: bool)
    requires
        x <= 18,
        y <= 18,
    ensures
        closed == hemmed(state.stones(rival)@, x as int, y as int),
{
    let left = x == 0 || holds(state, x - 1, y, rival);
    let right = x == 18 || holds(state, x + 1, y, rival);
    let down = y == 0 || holds(state, x, y - 1, rival);
    let up = y == 18 || holds(state, x, y + 1, rival);
    left && right && down && up
}

/// Whether `(x, y)` holds a stone of `color`.
fn holds(state: &State, x: usize, y: usize, color: Color) -> (held: bool)
    requires
        x <= 18,
        y <= 18,
    ensures
        held == state.stones(color)@.contains((x as int, y as int)),
{
    let mask = match color {
        Color::Black => state.black_mask(),
        Color::White => state.white_mask(),
    };
    mask.get(x, y)
}

} // verus!
