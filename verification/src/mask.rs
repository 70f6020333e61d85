use vstd::prelude::*;
use core::ops::Not;
use crate::bits::{bit, ROW_FULL};
use crate::mask_row::MaskRow;
use crate::text::push_char;
use crate::region::{
    component, count, grow, has_liberty, inside_board, lemma_count_le, lemma_count_lt,
    lemma_flood_is_component, lemma_reach_done, lemma_reach_settles, lemma_reach_step, liberties,
    on_board, reach, reach_all, seed_set, touches,
};

verus! {

/// A set of intersections: nineteen rows of nineteen columns.
#[derive(Debug, Clone, Copy, Hash)]
pub struct Mask {
    rows: [MaskRow; 19],
}

impl View for Mask {
    type V = Set<(int, int)>;

    /// The intersections in the mask, each as `(x, y)`.
    open spec fn view(&self) -> Set<(int, int)> {
        Set::new(|p: (int, int)| self.has(p.0, p.1))
    }
}

impl Mask {
    /// Row `y` of the mask.
    pub closed spec fn spec_row(self, y: int) -> MaskRow {
        self.rows[y]
    }

    /// Every row keeps to its nineteen columns.
    pub open spec fn wf(self) -> bool {
        forall|y: int| 0 <= y < 19 ==> (#[trigger] self.spec_row(y)).wf()
    }

    /// Whether the intersection `(x, y)` is in the mask.
    pub open spec fn has(self, x: int, y: int) -> bool {
        0 <= y < 19 && self.spec_row(y).has(x)
    }

    /// The mask of the intersections of the board that are not in this one.
    pub open spec fn complement(self) -> Mask {
        choose|rest: Mask|
            rest.wf() && rest@ == Set::new(|p: (int, int)| on_board(p.0, p.1) && !self@.contains(p))
    }

    /// The mask without any intersection.
    pub fn empty() -> (mask: Mask)
        ensures
            mask.wf(),
            mask@ == Set::<(int, int)>::empty(),
    {
        let row = MaskRow::empty();
        let mask = Mask { rows: [row; 19] };
        assert forall|y: int| 0 <= y < 19 implies #[trigger] mask.spec_row(y) == row by {
            assert(mask.rows == vstd::array::spec_array_fill_for_copy_type::<MaskRow, 19>(row));
        }
        assert(mask@ =~= Set::<(int, int)>::empty());
        mask
    }

    /// The mask of all 361 intersections.
    pub fn filled() -> (mask: Mask)
        ensures
            mask.wf(),
            mask@ == Set::new(|p: (int, int)| on_board(p.0, p.1)),
    {
        let row = MaskRow::filled();
        let mask = Mask { rows: [row; 19] };
        assert forall|y: int| 0 <= y < 19 implies #[trigger] mask.spec_row(y) == row by {
            assert(mask.rows == vstd::array::spec_array_fill_for_copy_type::<MaskRow, 19>(row));
        }
        assert(mask@ =~= Set::new(|p: (int, int)| on_board(p.0, p.1)));
        mask
    }

    /// The mask whose first rows hold the given bits, column `x` of a row
    /// at bit `x`; the rows after them are empty.
    pub fn new<const N: usize>(rows: [u32; N]) -> (mask: Mask)
        requires
            N <= 19,
            forall|y: int| 0 <= y < N ==> rows[y] <= ROW_FULL,
        ensures
            mask.wf(),
            forall|x: int, y: int|
                mask.has(x, y) <==> (0 <= x < 19 && 0 <= y < N && bit(rows[y], x as u32)),
    {
        let mut mask = Mask::empty();
        assert forall|x: int, y: int| !mask.has(x, y) by {
            assert(!mask@.contains((x, y)));
        }
        let mut i: usize = 0;
        while i < N
            invariant
                i <= N <= 19,
                mask.wf(),
                forall|y: int| 0 <= y < N ==> rows[y] <= ROW_FULL,
                forall|y: int| 0 <= y < i ==> (#[trigger] mask.spec_row(y)).raw() == rows[y],
                forall|x: int, y: int| i <= y ==> !mask.has(x, y),
            decreases N - i,
        {
            let row = MaskRow::new(rows[i]);
            let ghost before = mask;
            mask.rows[i] = row;
            assert(forall|k: int| 0 <= k < 19 ==> mask.spec_row(k) == (if k == i {
                row
            } else {
                before.spec_row(k)
            }));
            assert forall|x: int, y: int| i + 1 <= y implies !mask.has(x, y) by {
                assert(!before.has(x, y));
            }
            i += 1;
        }
        assert forall|x: int, y: int|
            mask.has(x, y) <==> (0 <= x < 19 && 0 <= y < N && bit(rows[y], x as u32)) by {
            if 0 <= y < N {
                assert(mask.spec_row(y).raw() == rows[y]);
            }
        }
        mask
    }

    /// Row `y` of the mask.
    pub fn row(&self, y: usize) -> (row: &MaskRow)
        requires
            y <= 18,
        ensures
            *row == self.spec_row(y as int),
    {
        &self.rows[y]
    }

    /// Row `y` of the mask, to be changed in place.
    pub fn row_mut(&mut self, y: usize) -> (row: &mut MaskRow)
        requires
            y <= 18,
        ensures
            *row == old(self).spec_row(y as int),
            final(self).spec_row(y as int) == *final(row),
            forall|k: int| 0 <= k < 19 && k != y ==> final(self).spec_row(k) == old(self).spec_row(k),
    {
        &mut self.rows[y]
    }

    /// The nineteen rows, row 0 first, to be changed in place.
    pub fn rows_mut(&mut self) -> (rows: &mut [MaskRow; 19])
        ensures
            forall|y: int| 0 <= y < 19 ==> rows[y] == old(self).spec_row(y),
            forall|y: int| 0 <= y < 19 ==> final(self).spec_row(y) == final(rows)[y],
    {
        &mut self.rows
    }

    /// The nineteen rows, row 0 first.
    pub fn rows(&self) -> (rows: &[MaskRow; 19])
        ensures
            forall|y: int| 0 <= y < 19 ==> rows[y] == self.spec_row(y),
    {
        &self.rows
    }

    /// Whether `(x, y)` is in the mask.
    pub fn get(&self, x: usize, y: usize) -> (set: bool)
        requires
            x <= 18,
            y <= 18,
        ensures
            set == self@.contains((x as int, y as int)),
    {
        self.rows[y].get(x)
    }

    /// Puts `(x, y)` into the mask.
    pub fn set(&mut self, x: usize, y: usize)
        requires
            x <= 18,
            y <= 18,
            old(self).wf(),
        ensures
            final(self).wf(),
            final(self)@ == old(self)@.insert((x as int, y as int)),
    {
        let mut row = self.rows[y];
        assert(row == self.spec_row(y as int));
        row.set(x);
        self.rows[y] = row;
        assert(forall|k: int| 0 <= k < 19 ==> self.spec_row(k) == (if k == y {
            row
        } else {
            old(self).spec_row(k)
        }));
        assert(self@ =~= old(self)@.insert((x as int, y as int)));
    }

    /// Takes `(x, y)` out of the mask.
    pub fn unset(&mut self, x: usize, y: usize)
        requires
            x <= 18,
            y <= 18,
            old(self).wf(),
        ensures
            final(self).wf(),
            final(self)@ == old(self)@.remove((x as int, y as int)),
    {
        let mut row = self.rows[y];
        assert(row == self.spec_row(y as int));
        row.unset(x);
        self.rows[y] = row;
        assert(forall|k: int| 0 <= k < 19 ==> self.spec_row(k) == (if k == y {
            row
        } else {
            old(self).spec_row(k)
        }));
        assert(self@ =~= old(self)@.remove((x as int, y as int)));
    }
}

impl Mask {
    /// A mask holds intersections of the board only.
    pub proof fn lemma_inside_board(self)
        ensures
            inside_board(self@),
    {
    }

    /// Grows the mask by one step in the four directions and keeps of the
    /// result what lies in `stencil`.
    pub fn expand_once(&mut self, stencil: &Mask)
        requires
            old(self).wf(),
            stencil.wf(),
        ensures
            final(self).wf(),
            final(self)@ == grow(old(self)@).intersect(stencil@),
    {
        let ghost before = *self;
        let mut above = MaskRow::empty();
        let mut y: usize = 0;
        while y < 19
            invariant
                y <= 19,
                before.wf(),
                stencil.wf(),
                above.wf(),
                forall|k: int| y <= k < 19 ==> self.spec_row(k) == before.spec_row(k),
                forall|k: int| 0 <= k < y ==> (#[trigger] self.spec_row(k)).wf(),
                forall|x: int, k: int|
                    0 <= k < y ==> (#[trigger] self.spec_row(k).has(x) <==> (on_board(x, k)
                        && touches(before@, (x, k)) && stencil.has(x, k))),
                forall|x: int| above.has(x) <==> before.has(x, y - 1),
            decreases 19 - y,
        {
            let ghost earlier = *self;
            let here = self.rows[y];
            let mut below = MaskRow::empty();
            if y < 18 {
                below = self.rows[y + 1];
            }
            assert(here == before.spec_row(y as int));
            assert(before.spec_row(y as int).wf());
            assert(y < 18 ==> below == before.spec_row(y + 1) && before.spec_row(y + 1).wf());
            assert(stencil.spec_row(y as int).wf());
            let wide = here.expand();
            let grown = (above | wide | below) & stencil.rows[y];
            self.rows[y] = grown;
            assert(forall|k: int| 0 <= k < 19 ==> self.spec_row(k) == (if k == y {
                grown
            } else {
                earlier.spec_row(k)
            }));
            assert forall|x: int| grown.has(x) <==> (on_board(x, y as int) && touches(
                before@,
                (x, y as int),
            ) && stencil.has(x, y as int)) by {
                assert(before@.contains((x, y as int)) == before.has(x, y as int));
                assert(before@.contains((x - 1, y as int)) == before.has(x - 1, y as int));
                assert(before@.contains((x + 1, y as int)) == before.has(x + 1, y as int));
                assert(before@.contains((x, y - 1)) == before.has(x, y - 1));
                assert(before@.contains((x, y + 1)) == before.has(x, y + 1));
                assert(below.has(x) == before.has(x, y + 1));
            }
            above = here;
            y += 1;
        }
        assert forall|p: (int, int)| self@.contains(p) <==> grow(before@).intersect(stencil@).contains(
            p,
        ) by {
            assert(self@.contains(p) == self.has(p.0, p.1));
            assert(stencil@.contains(p) == stencil.has(p.0, p.1));
        }
        assert(self@ =~= grow(before@).intersect(stencil@));
    }

    /// The mask grown by one step in the four directions, cut to
    /// `stencil`. The mask itself stays as it is.
    pub fn expand(&self, stencil: &Mask) -> (grown: Mask)
        requires
            self.wf(),
            stencil.wf(),
        ensures
            grown.wf(),
            grown@ == grow(self@).intersect(stencil@),
    {
        let mut grown = *self;
        grown.expand_once(stencil);
        grown
    }

    /// Grows the mask through `stencil` until a step changes nothing. That
    /// takes as many steps as the farthest point that is reached lies from
    /// the mask, and one more to see that nothing changes: never more than
    /// 362.
    pub fn expand_all(&mut self, stencil: &Mask)
        requires
            old(self).wf(),
            stencil.wf(),
        ensures
            final(self).wf(),
            final(self)@ == reach_all(old(self)@, stencil@),
            final(self)@ == reach(old(self)@, stencil@, 362),
            grow(final(self)@).intersect(stencil@) == final(self)@,
    {
        let ghost start = self@;
        let ghost steps: nat = 0;
        proof {
            stencil.lemma_inside_board();
            lemma_reach_settles(start, stencil@);
        }
        loop
            invariant_except_break
                self@ == reach(start, stencil@, steps),
            invariant
                self.wf(),
                stencil.wf(),
                inside_board(stencil@),
                start == old(self)@,
            ensures
                self@ == reach_all(start, stencil@),
                grow(self@).intersect(stencil@) == self@,
            decreases
                (if steps == 0 {
                    362
                } else {
                    361 - count(self@, 361)
                }),
        {
            let prev = *self;
            self.expand_once(stencil);
            assert(self@ == reach(start, stencil@, steps + 1));
            if *self == prev {
                proof {
                    lemma_reach_done(start, stencil@, steps);
                }
                break;
            }
            proof {
                lemma_count_le(self@, self@, 361);
                if steps >= 1 {
                    lemma_reach_step(start, stencil@, steps);
                    assert(prev@.subset_of(self@));
                    if forall|p: (int, int)| prev@.contains(p) == self@.contains(p) {
                        assert(prev@ =~= self@);
                    }
                    let p = choose|p: (int, int)| prev@.contains(p) != self@.contains(p);
                    assert(self@.contains(p) && !prev@.contains(p));
                    assert(self.has(p.0, p.1));
                    lemma_count_lt(prev@, self@, 361, p);
                }
                steps = steps + 1;
            }
        }
    }

    /// The group of `(x, y)` in this mask: every intersection of the mask
    /// that a walk through the mask links to `(x, y)`. It is empty when
    /// `(x, y)` is not in the mask.
    pub fn flood(&self, x: usize, y: usize) -> (group: Mask)
        requires
            x <= 18,
            y <= 18,
            self.wf(),
        ensures
            group.wf(),
            group@ == component(self@, (x as int, y as int)),
    {
        let mut mask = Mask::empty();
        if self.get(x, y) {
            mask.set(x, y);
        }
        assert(mask@ =~= seed_set(self@, (x as int, y as int)));
        mask.expand_all(self);
        proof {
            self.lemma_inside_board();
            lemma_flood_is_component(self@, (x as int, y as int));
        }
        mask
    }
}

impl Mask {
    /// The mask as text: its rows from row 0 on, each as nineteen
    /// characters, column 0 first, and a line feed.
    pub open spec fn text(self) -> Seq<char> {
        Seq::new(
            380,
            |k: int|
                if k % 20 == 19 {
                    '\n'
                } else if self.has(k % 20, k / 20) {
                    '1'
                } else {
                    '0'
                },
        )
    }

    /// The mask as text, a line for each row.
    pub fn debug_string(&self) -> (text: String)
        ensures
            text@ == self.text(),
    {
        let mut text = String::new();
        let mut y: usize = 0;
        while y < 19
            invariant
                y <= 19,
                text@.len() == 20 * y,
                forall|k: int| 0 <= k < 20 * y ==> text@[k] == self.text()[k],
            decreases 19 - y,
        {
            let mut x: usize = 0;
            while x < 19
                invariant
                    x <= 19,
                    y < 19,
                    text@.len() == 20 * y + x,
                    forall|k: int| 0 <= k < 20 * y + x ==> text@[k] == self.text()[k],
                decreases 19 - x,
            {
                let c = if self.get(x, y) { '1' } else { '0' };
                push_char(&mut text, c);
                x += 1;
            }
            push_char(&mut text, '\n');
            y += 1;
        }
        assert(text@ =~= self.text());
        text
    }

    /// Whether the mask, taken as a group of stones, has a liberty: an
    /// intersection next to it that neither it nor `opponent` holds.
    pub fn has_a_liberty(&self, opponent: &Mask) -> (free: bool)
        requires
            self.wf(),
            opponent.wf(),
        ensures
            free == has_liberty(self@, opponent@),
    {
        let mut above = MaskRow::empty();
        let mut y: usize = 0;
        while y < 19
            invariant
                y <= 19,
                self.wf(),
                opponent.wf(),
                above.wf(),
                forall|x: int| above.has(x) <==> self.has(x, y - 1),
                forall|p: (int, int)| p.1 < y ==> !liberties(self@, opponent@).contains(p),
            decreases 19 - y,
        {
            let here = self.rows[y];
            let mut below = MaskRow::empty();
            if y < 18 {
                below = self.rows[y + 1];
            }
            assert(self.spec_row(y as int).wf());
            assert(y < 18 ==> self.spec_row(y + 1).wf());
            assert(opponent.spec_row(y as int).wf());
            let wide = here.expand();
            let open = (above | wide | below) & here.not() & opponent.rows[y].not();
            assert forall|x: int| open.has(x) <==> liberties(self@, opponent@).contains((x, y as int)) by {
                assert(self@.contains((x, y as int)) == self.has(x, y as int));
                assert(self@.contains((x - 1, y as int)) == self.has(x - 1, y as int));
                assert(self@.contains((x + 1, y as int)) == self.has(x + 1, y as int));
                assert(self@.contains((x, y - 1)) == self.has(x, y - 1));
                assert(self@.contains((x, y + 1)) == self.has(x, y + 1));
                assert(below.has(x) == self.has(x, y + 1));
                assert(opponent@.contains((x, y as int)) == opponent.has(x, y as int));
            }
            if !open.is_empty() {
                proof {
                    let x = choose|x: int| open.has(x);
                    assert(liberties(self@, opponent@).contains((x, y as int)));
                }
                return true;
            }
            assert forall|p: (int, int)| p.1 < y + 1 implies !liberties(self@, opponent@).contains(p) by {
                if p.1 == y {
                    assert(!open.has(p.0));
                    assert(p == (p.0, y as int));
                }
            }
            above = here;
            y += 1;
        }
        assert forall|p: (int, int)| !liberties(self@, opponent@).contains(p) by {
            if p.1 >= 19 {
                assert(!grow(self@).contains(p));
            }
        }
        false
    }

    /// Whether the two masks share no intersection.
    pub fn is_disjoint(&self, other: &Mask) -> (apart: bool)
        requires
            self.wf(),
            other.wf(),
        ensures
            apart == self@.disjoint(other@),
    {
        let mut y: usize = 0;
        while y < 19
            invariant
                y <= 19,
                self.wf(),
                other.wf(),
                forall|x: int, k: int| 0 <= k < y ==> !(self.has(x, k) && other.has(x, k)),
            decreases 19 - y,
        {
            assert(self.spec_row(y as int).wf() && other.spec_row(y as int).wf());
            let both = self.rows[y] & other.rows[y];
            if !both.is_empty() {
                proof {
                    let x = choose|x: int| both.has(x);
                    assert(self@.contains((x, y as int)) && other@.contains((x, y as int)));
                }
                return false;
            }
            assert forall|x: int, k: int| 0 <= k < y + 1 implies !(self.has(x, k) && other.has(
                x,
                k,
            )) by {
                if k == y {
                    assert(!both.has(x));
                }
            }
            y += 1;
        }
        assert forall|p: (int, int)| !(self@.contains(p) && other@.contains(p)) by {
            assert(!(self.has(p.0, p.1) && other.has(p.0, p.1)));
        }
        true
    }

    /// Takes every intersection of `other` out of the mask.
    pub fn remove_all(&mut self, other: &Mask)
        requires
            old(self).wf(),
        ensures
            final(self).wf(),
            final(self)@ == old(self)@.difference(other@),
    {
        let ghost before = *self;
        let mut y: usize = 0;
        while y < 19
            invariant
                y <= 19,
                before.wf(),
                forall|k: int| y <= k < 19 ==> self.spec_row(k) == before.spec_row(k),
                forall|k: int| 0 <= k < y ==> (#[trigger] self.spec_row(k)).wf(),
                forall|x: int, k: int|
                    0 <= k < y ==> (#[trigger] self.spec_row(k).has(x) <==> (before.has(x, k)
                        && !other.has(x, k))),
            decreases 19 - y,
        {
            let ghost earlier = *self;
            assert(before.spec_row(y as int).wf());
            let kept = self.rows[y] & other.rows[y].not();
            self.rows[y] = kept;
            assert(forall|k: int| 0 <= k < 19 ==> self.spec_row(k) == (if k == y {
                kept
            } else {
                earlier.spec_row(k)
            }));
            y += 1;
        }
        assert forall|p: (int, int)| self@.contains(p) <==> before@.difference(other@).contains(p) by {
            assert(self@.contains(p) == self.has(p.0, p.1));
            assert(before@.contains(p) == before.has(p.0, p.1));
            assert(other@.contains(p) == other.has(p.0, p.1));
        }
        assert(self@ =~= before@.difference(other@));
    }
}

impl core::ops::Not for Mask {
    type Output = Mask;

    /// The intersections of the board that are not in this mask.
    fn not(self) -> (rest: Mask)
        ensures
            rest.wf(),
            rest@ == Set::new(|p: (int, int)| on_board(p.0, p.1) && !self@.contains(p)),
    {
        let mut rest = Mask::empty();
        let mut y: usize = 0;
        while y < 19
            invariant
                y <= 19,
                rest.wf(),
                forall|x: int, k: int|
                    0 <= k < y ==> (#[trigger] rest.spec_row(k).has(x) <==> (0 <= x < 19 && !self.has(
                        x,
                        k,
                    ))),
            decreases 19 - y,
        {
            let ghost earlier = rest;
            let row = self.rows[y].not();
            rest.rows[y] = row;
            assert(forall|k: int| 0 <= k < 19 ==> rest.spec_row(k) == (if k == y {
                row
            } else {
                earlier.spec_row(k)
            }));
            y += 1;
        }
        assert forall|p: (int, int)|
            rest@.contains(p) <==> (on_board(p.0, p.1) && !self@.contains(p)) by {
            assert(rest@.contains(p) == rest.has(p.0, p.1));
            assert(self@.contains(p) == self.has(p.0, p.1));
        }
        assert(rest@ =~= Set::new(|p: (int, int)| on_board(p.0, p.1) && !self@.contains(p)));
        proof {
            Mask::lemma_same_points(rest, self.complement());
        }
        rest
    }
}

impl vstd::std_specs::ops::NotSpecImpl for Mask {
    open spec fn obeys_not_spec() -> bool {
        true
    }

    open spec fn not_req(self) -> bool {
        true
    }

    open spec fn not_spec(self) -> Mask {
        self.complement()
    }
}

impl Mask {
    /// Masks whose rows keep to the board are equal when they hold the same
    /// intersections.
    pub proof fn lemma_same_points(a: Mask, b: Mask)
        requires
            a.wf(),
            b.wf(),
            a@ == b@,
        ensures
            a == b,
    {
        assert forall|y: int| 0 <= y < 19 implies a.rows[y] == b.rows[y] by {
            assert(a.spec_row(y).wf() && b.spec_row(y).wf());
            assert forall|j: int| 0 <= j < 19 implies a.spec_row(y).has(j) == b.spec_row(y).has(j) by {
                assert(a@.contains((j, y)) == a.has(j, y));
                assert(b@.contains((j, y)) == b.has(j, y));
            }
            MaskRow::lemma_same_columns(a.spec_row(y), b.spec_row(y));
        }
        assert(a.rows =~= b.rows);
    }
}

impl PartialEq for Mask {
    /// Whether the two masks have the same rows.
    fn eq(&self, other: &Mask) -> (same: bool)
        ensures
            self.wf() && other.wf() ==> same == (self@ == other@),
    {
        let mut y: usize = 0;
        while y < 19
            invariant
                y <= 19,
                forall|k: int| 0 <= k < y ==> self.rows[k] == other.rows[k],
            decreases 19 - y,
        {
            if self.rows[y] != other.rows[y] {
                proof {
                    if self@ == other@ && self.wf() && other.wf() {
                        Mask::lemma_same_points(*self, *other);
                    }
                }
                return false;
            }
            y += 1;
        }
        assert(self.rows =~= other.rows);
        true
    }
}

impl vstd::std_specs::cmp::PartialEqSpecImpl for Mask {
    open spec fn obeys_eq_spec() -> bool {
        true
    }

    open spec fn eq_spec(&self, other: &Mask) -> bool {
        *self == *other
    }
}

impl Eq for Mask {

}

impl core::ops::Deref for Mask {
    type Target = [MaskRow; 19];

    /// The nineteen rows, row 0 first.
    fn deref(&self) -> (rows: &[MaskRow; 19])
        ensures
            forall|y: int| 0 <= y < 19 ==> rows[y] == self.spec_row(y),
    {
        &self.rows
    }
}

impl core::ops::DerefMut for Mask {
    /// The nineteen rows, row 0 first, to be changed in place.
    fn deref_mut(&mut self) -> (rows: &mut [MaskRow; 19])
        ensures
            forall|y: int| 0 <= y < 19 ==> rows[y] == old(self).spec_row(y),
            forall|y: int| 0 <= y < 19 ==> final(self).spec_row(y) == final(rows)[y],
    {
        &mut self.rows
    }
}

impl core::ops::Index<usize> for Mask {
    type Output = MaskRow;

    /// Row `index` of the mask.
    fn index(&self, index: usize) -> (row: &MaskRow)
        ensures
            *row == self.spec_row(index as int),
    {
        &self.rows[index]
    }
}

impl vstd::std_specs::core::IndexSpecImpl<usize> for Mask {
    open spec fn index_req(&self, index: &usize) -> bool {
        *index <= 18
    }
}

impl Default for Mask {
    /// The mask without any intersection.
    fn default() -> (mask: Mask)
        ensures
            mask.wf(),
            mask@ == Set::<(int, int)>::empty(),
    {
        Mask::empty()
    }
}

impl core::ops::IndexMut<usize> for Mask {
    /// Row `index` of the mask, to be changed in place.
    fn index_mut(&mut self, index: usize) -> (row: &mut MaskRow)
        requires
            index <= 18,
        ensures
            *row == old(self).spec_row(index as int),
            final(self).spec_row(index as int) == *final(row),
            forall|k: int|
                0 <= k < 19 && k != index ==> final(self).spec_row(k) == old(self).spec_row(k),
    {
        &mut self.rows[index]
    }
}

} // verus!
