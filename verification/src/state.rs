use vstd::prelude::*;
use crate::color::Color;
use crate::mask::Mask;
use crate::region::component;
use crate::text::push_char;

verus! {

/// A position: the black stones and the white stones.
#[derive(Debug, Clone, Copy, Hash)]
pub struct State {
    black: Mask,
    white: Mask,
}

impl State {
    /// The intersections that hold a black stone.
    pub closed spec fn black(self) -> Mask {
        self.black
    }

    /// The intersections that hold a white stone.
    pub closed spec fn white(self) -> Mask {
        self.white
    }

    /// The stones of one colour.
    pub open spec fn stones(self, color: Color) -> Mask {
        match color {
            Color::Black => self.black(),
            Color::White => self.white(),
        }
    }

    /// Both masks keep to the board, and no intersection holds two stones.
    pub open spec fn wf(self) -> bool {
        &&& self.black().wf()
        &&& self.white().wf()
        &&& self.black()@.disjoint(self.white()@)
    }

    /// What the intersection `(x, y)` holds.
    pub open spec fn at(self, x: int, y: int) -> Option<Color> {
        if self.black()@.contains((x, y)) {
            Some(Color::Black)
        } else if self.white()@.contains((x, y)) {
            Some(Color::White)
        } else {
            None
        }
    }

    /// The position with the given stones.
    pub fn new(black: Mask, white: Mask) -> (state: State)
        requires
            black.wf(),
            white.wf(),
            black@.disjoint(white@),
        ensures
            state.wf(),
            state.black() == black,
            state.white() == white,
    {
        State { black, white }
    }

    /// The black stones.
    pub fn black_mask(&self) -> (mask: &Mask)
        ensures
            *mask == self.black(),
    {
        &self.black
    }

    /// The white stones.
    pub fn white_mask(&self) -> (mask: &Mask)
        ensures
            *mask == self.white(),
    {
        &self.white
    }

    /// Writes one intersection: a stone of the given colour, or none. The
    /// other colour's stone at that intersection, if any, goes.
    pub fn set(&mut self, x: usize, y: usize, color: Option<Color>)
        requires
            x <= 18,
            y <= 18,
            old(self).wf(),
        ensures
            final(self).wf(),
            final(self).at(x as int, y as int) == color,
            final(self).black()@ == (if color == Some(Color::Black) {
                old(self).black()@.insert((x as int, y as int))
            } else {
                old(self).black()@.remove((x as int, y as int))
            }),
            final(self).white()@ == (if color == Some(Color::White) {
                old(self).white()@.insert((x as int, y as int))
            } else {
                old(self).white()@.remove((x as int, y as int))
            }),
    {
        match color {
            Some(Color::Black) => {
                self.black.set(x, y);
                self.white.unset(x, y);
            },
            Some(Color::White) => {
                self.white.set(x, y);
                self.black.unset(x, y);
            },
            None => {
                self.black.unset(x, y);
                self.white.unset(x, y);
            },
        }
    }

    /// What the intersection `(x, y)` holds.
    pub fn get(&self, x: usize, y: usize) -> (color: Option<Color>)
        requires
            x <= 18,
            y <= 18,
        ensures
            color == self.at(x as int, y as int),
    {
        if self.black.get(x, y) {
            Some(Color::Black)
        } else if self.white.get(x, y) {
            Some(Color::White)
        } else {
            None
        }
    }

    /// The group of `(x, y)` among the stones of `color`: empty when
    /// `(x, y)` holds no stone of that colour.
    pub fn mask_group(&self, x: usize, y: usize, color: Color) -> (group: Mask)
        requires
            x <= 18,
            y <= 18,
            self.wf(),
        ensures
            group.wf(),
            group@ == component(self.stones(color)@, (x as int, y as int)),
    {
        match color {
            Color::Black => self.black.flood(x, y),
            Color::White => self.white.flood(x, y),
        }
    }

    /// Takes the whole group of the stone at `(x, y)` off the board. Where
    /// `(x, y)` is empty nothing changes.
    pub fn remove_group(&mut self, x: usize, y: usize)
        requires
            x <= 18,
            y <= 18,
            old(self).wf(),
        ensures
            final(self).wf(),
            match old(self).at(x as int, y as int) {
                Some(Color::Black) => {
                    &&& final(self).white() == old(self).white()
                    &&& final(self).black()@ == old(self).black()@.difference(
                        component(old(self).black()@, (x as int, y as int)),
                    )
                },
                Some(Color::White) => {
                    &&& final(self).black() == old(self).black()
                    &&& final(self).white()@ == old(self).white()@.difference(
                        component(old(self).white()@, (x as int, y as int)),
                    )
                },
                None => *final(self) == *old(self),
            },
    {
        match self.get(x, y) {
            Some(Color::Black) => {
                let group = self.mask_group(x, y, Color::Black);
                self.black.remove_all(&group);
            },
            Some(Color::White) => {
                let group = self.mask_group(x, y, Color::White);
                self.white.remove_all(&group);
            },
            None => {},
        }
    }
}

impl State {
    /// The position as text: its rows from row 0 on, each as nineteen
    /// characters, column 0 first, and a line feed. A black stone is `b`,
    /// a white stone `w`, an empty intersection a space.
    pub open spec fn text(self) -> Seq<char> {
        Seq::new(
            380,
            |k: int|
                if k % 20 == 19 {
                    '\n'
                } else {
                    match self.at(k % 20, k / 20) {
                        Some(Color::Black) => 'b',
                        Some(Color::White) => 'w',
                        None => ' ',
                    }
                },
        )
    }

    /// The position as text, a line for each row.
    pub fn debug_string(&self) -> (text: String)
        ensures
            text@ == self.text(),
    {
        let mut text = String::new();
        let mut y: usize = 0;
        while y < 19
            invariant
                y <= 19,
                text@.len() == 20 * y,
                forall|k: int| 0 <= k < 20 * y ==> text@[k] == self.text()[k],
            decreases 19 - y,
        {
            let mut x: usize = 0;
            while x < 19
                invariant
                    x <= 19,
                    y < 19,
                    text@.len() == 20 * y + x,
                    forall|k: int| 0 <= k < 20 * y + x ==> text@[k] == self.text()[k],
                decreases 19 - x,
            {
                let c = match self.get(x, y) {
                    Some(Color::Black) => 'b',
                    Some(Color::White) => 'w',
                    None => ' ',
                };
                push_char(&mut text, c);
                x += 1;
            }
            push_char(&mut text, '\n');
            y += 1;
        }
        assert(text@ =~= self.text());
        text
    }

    /// The stones of `color` and those of the other colour, both to be
    /// changed in place.
    pub fn sides_mut(&mut self, color: Color) -> (sides: (&mut Mask, &mut Mask))
        ensures
            *sides.0 == old(self).stones(color),
            *sides.1 == old(self).stones(color.opposite()),
            final(self).stones(color) == *final(sides.0),
            final(self).stones(color.opposite()) == *final(sides.1),
    {
        match color {
            Color::Black => (&mut self.black, &mut self.white),
            Color::White => (&mut self.white, &mut self.black),
        }
    }
}

impl PartialEq for State {
    /// Whether the two positions hold the same stones.
    fn eq(&self, other: &State) -> (same: bool)
        ensures
            self.wf() && other.wf() ==> same == (self.black()@ == other.black()@ && self.white()@
                == other.white()@),
    {
        self.black == other.black && self.white == other.white
    }
}

impl vstd::std_specs::cmp::PartialEqSpecImpl for State {
    open spec fn obeys_eq_spec() -> bool {
        true
    }

    open spec fn eq_spec(&self, other: &State) -> bool {
        *self == *other
    }
}

impl Eq for State {

}

impl Default for State {
    /// The empty board.
    fn default() -> (state: State)
        ensures
            state.wf(),
            state.black()@ == Set::<(int, int)>::empty(),
            state.white()@ == Set::<(int, int)>::empty(),
    {
        State { black: Mask::empty(), white: Mask::empty() }
    }
}

} // verus!
