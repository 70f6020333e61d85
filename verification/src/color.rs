use vstd::prelude::*;

verus! {

/// The colour of a stone, and of the player who places it.
#[derive(Debug, Clone, Copy, PartialEq, Eq, Hash, Structural)]
pub enum Color {
    Black,
    White,
}

impl Color {
    /// The other colour.
    pub open spec fn spec_opposite(self) -> Color {
        match self {
            Color::Black => Color::White,
            Color::White => Color::Black,
        }
    }

    /// The colour of the opponent.
    #[verifier::when_used_as_spec(spec_opposite)]
    pub fn opposite(self) -> (other: Color)
        ensures
            other == self.spec_opposite(),
            other != self,
    {
        match self {
            Color::Black => Color::White,
            Color::White => Color::Black,
        }
    }
}

} // verus!
