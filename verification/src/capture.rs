use vstd::prelude::*;
use crate::color::Color;
use crate::mask::Mask;
use crate::rules::{capture_at, smothered};
use crate::state::State;

verus! {

/// The stones of a position, seen from the side that has just played: its
/// own stones, and those that it may take.
pub struct Capture<'a> {
    pub attacker: &'a mut Mask,
    pub defender: &'a mut Mask,
}

impl<'a> Capture<'a> {
    /// Both masks keep to the board.
    pub open spec fn wf(&self) -> bool {
        self.attacker.wf() && self.defender.wf()
    }

    /// The position as `color` attacks it. What is done to the two masks
    /// is done to the position.
    pub fn new(state: &'a mut State, color: Color) -> (capture: Capture<'a>)
        ensures
            *capture.attacker == old(state).stones(color),
            *capture.defender == old(state).stones(color.opposite()),
            final(state).stones(color) == *final(capture.attacker),
            final(state).stones(color.opposite()) == *final(capture.defender),
    {
        let (attacker, defender) = state.sides_mut(color);
        Capture { attacker, defender }
    }

    /// Takes the defender's group at `(x, y)` off the board if it has no
    /// liberty, and says whether it had none. A group is taken whole or
    /// not at all, and the attacker's stones stay as they are. Where
    /// `(x, y)` holds no stone of the defender the group is empty: it has
    /// no liberty, and nothing leaves the board.
    pub fn try_capture(&mut self, x: usize, y: usize) -> (captured: bool)
        requires
            x <= 18,
            y <= 18,
            old(self).wf(),
        ensures
            final(self).wf(),
            captured == smothered(old(self).defender@, old(self).attacker@, x as int, y as int),
            *final(self).attacker == *old(self).attacker,
            *final(final(self).attacker) == *final(old(self).attacker),
            *final(final(self).defender) == *final(old(self).defender),
            final(self).defender@ == capture_at(
                old(self).defender@,
                old(self).attacker@,
                x as int,
                y as int,
            ),
            !captured ==> *final(self).defender == *old(self).defender,
    {
        let group = self.defender.flood(x, y);
        let is_capture = !group.has_a_liberty(self.attacker);
        if is_capture {
            self.defender.remove_all(&group);
        }
        is_capture
    }
}

} // verus!
