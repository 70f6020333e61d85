use vstd::prelude::*;
use crate::text::push_char;
use crate::bits::{
    bit, lemma_bit_and, lemma_bit_not, lemma_bit_of_full, lemma_bit_of_zero, lemma_bit_or,
    lemma_bit_set, lemma_bit_shl, lemma_bit_shr, lemma_bit_spread, lemma_bit_unset,
    lemma_bits_equal, lemma_bits_none, ROW_FULL,
};

verus! {

/// One row of the board: a bit per column, column `i` at bit `i`.
#[derive(Debug, Clone, Copy, PartialEq, Eq, Hash, Structural)]
pub struct MaskRow {
    bits: u32,
}

impl MaskRow {
    /// The row with no column set.
    pub fn empty() -> (row: MaskRow)
        ensures
            row.wf(),
            row.raw() == 0,
            forall|j: int| !row.has(j),
    {
        proof {
            lemma_bit_of_zero();
        }
        MaskRow { bits: 0 }
    }

    /// The row with all nineteen columns set.
    pub fn filled() -> (row: MaskRow)
        ensures
            row.wf(),
            row.raw() == ROW_FULL,
            forall|j: int| row.has(j) <==> 0 <= j < 19,
    {
        proof {
            lemma_bit_of_full();
        }
        MaskRow { bits: 0x7FFFF }
    }

    /// The number that holds the row's bits.
    pub closed spec fn raw(self) -> u32 {
        self.bits
    }

    /// No bit above column 18 is set.
    pub open spec fn wf(self) -> bool {
        self.raw() <= ROW_FULL
    }

    /// Whether column `i` is set. Columns off the board are never set.
    pub open spec fn has(self, i: int) -> bool {
        0 <= i < 19 && bit(self.raw(), i as u32)
    }

    /// A row from its bits.
    pub fn new(value: u32) -> (row: MaskRow)
        requires
            value <= ROW_FULL,
        ensures
            row.raw() == value,
            row.wf(),
    {
        MaskRow { bits: value }
    }

    /// The row's bits as a number.
    pub fn value(&self) -> (value: u32)
        ensures
            value == self.raw(),
    {
        self.bits
    }

    /// Whether column `i` is set.
    pub fn get(&self, i: usize) -> (set: bool)
        requires
            i <= 18,
        ensures
            set == self.has(i as int),
    {
        let k: u32 = i as u32;
        (self.bits >> k) & 1 == 1
    }

    /// Sets column `i` and leaves the others.
    pub fn set(&mut self, i: usize)
        requires
            i <= 18,
            old(self).wf(),
        ensures
            final(self).wf(),
            forall|j: int| final(self).has(j) <==> (j == i || old(self).has(j)),
    {
        let k: u32 = i as u32;
        proof {
            lemma_bit_set(self.bits, k);
        }
        self.bits = self.bits | (1u32 << k);
    }

    /// Clears column `i` and leaves the others.
    pub fn unset(&mut self, i: usize)
        requires
            i <= 18,
            old(self).wf(),
        ensures
            final(self).wf(),
            forall|j: int| final(self).has(j) <==> (j != i && old(self).has(j)),
    {
        let k: u32 = i as u32;
        proof {
            lemma_bit_unset(self.bits, k);
        }
        self.bits = self.bits & !(1u32 << k);
    }

    /// Whether no column is set.
    pub fn is_empty(&self) -> (none: bool)
        requires
            self.wf(),
        ensures
            none <==> forall|j: int| !self.has(j),
    {
        proof {
            lemma_bit_of_zero();
            if forall|j: int| !self.has(j) {
                assert forall|j: u32| j < 19 implies !bit(self.bits, j) by {
                    assert(!self.has(j as int));
                }
                lemma_bits_none(self.bits);
            }
        }
        self.bits == 0
    }

    /// The row as text: a character for each column, column 0 first, `1`
    /// where the column is set and `0` where it is not.
    pub open spec fn text(self) -> Seq<char> {
        Seq::new(19, |i: int| if self.has(i) { '1' } else { '0' })
    }

    /// The row as text, column 0 first.
    pub fn debug_string(&self) -> (text: String)
        ensures
            text@ == self.text(),
    {
        let mut text = String::new();
        let mut i: usize = 0;
        while i < 19
            invariant
                i <= 19,
                text@.len() == i,
                forall|k: int| 0 <= k < i ==> text@[k] == self.text()[k],
            decreases 19 - i,
        {
            let c = if self.get(i) { '1' } else { '0' };
            push_char(&mut text, c);
            i += 1;
        }
        assert(text@ =~= self.text());
        text
    }

    /// The row as a binary numeral of nineteen digits: column 18 first,
    /// column 0 last.
    pub open spec fn numeral(self) -> Seq<char> {
        Seq::new(19, |i: int| if self.has(18 - i) { '1' } else { '0' })
    }

    /// The row as a binary numeral of nineteen digits.
    pub fn binary_string(&self) -> (text: String)
        ensures
            text@ == self.numeral(),
    {
        let mut text = String::new();
        let mut i: usize = 0;
        while i < 19
            invariant
                i <= 19,
                text@.len() == i,
                forall|k: int| 0 <= k < i ==> text@[k] == self.numeral()[k],
            decreases 19 - i,
        {
            let c = if self.get(18 - i) { '1' } else { '0' };
            push_char(&mut text, c);
            i += 1;
        }
        assert(text@ =~= self.numeral());
        text
    }

    /// Rows without stray bits that agree on every column are equal.
    pub proof fn lemma_same_columns(a: MaskRow, b: MaskRow)
        requires
            a.wf(),
            b.wf(),
            forall|j: int| 0 <= j < 19 ==> a.has(j) == b.has(j),
        ensures
            a == b,
    {
        assert forall|j: u32| j < 19 implies bit(a.bits, j) == bit(b.bits, j) by {
            assert(a.has(j as int) == b.has(j as int));
        }
        lemma_bits_equal(a.bits, b.bits);
    }

    /// Every set column together with its left and right neighbours on the
    /// board. Nothing leaves the row at either end.
    pub fn expand(self) -> (wide: MaskRow)
        requires
            self.wf(),
        ensures
            wide.wf(),
            forall|j: int| wide.has(j) <==> (0 <= j < 19 && (self.has(j) || self.has(j - 1) || self.has(j + 1))),
    {
        proof {
            lemma_bit_spread(self.bits);
        }
        MaskRow { bits: ((self.bits << 1) | self.bits | (self.bits >> 1)) & ROW_FULL }
    }
}

impl core::ops::BitAnd for MaskRow {
    type Output = MaskRow;

    /// The columns set in both rows.
    fn bitand(self, rhs: MaskRow) -> (both: MaskRow)
        ensures
            both.wf(),
            forall|j: int| both.has(j) <==> (self.has(j) && rhs.has(j)),
    {
        proof {
            lemma_bit_and(self.bits, rhs.bits);
        }
        MaskRow { bits: self.bits & rhs.bits }
    }
}

impl vstd::std_specs::ops::BitAndSpecImpl for MaskRow {
    open spec fn obeys_bitand_spec() -> bool {
        true
    }

    open spec fn bitand_req(self, rhs: MaskRow) -> bool {
        self.wf() && rhs.wf()
    }

    closed spec fn bitand_spec(self, rhs: MaskRow) -> MaskRow {
        MaskRow { bits: self.bits & rhs.bits }
    }
}

impl core::ops::BitOr for MaskRow {
    type Output = MaskRow;

    /// The columns set in either row.
    fn bitor(self, rhs: MaskRow) -> (either: MaskRow)
        ensures
            either.wf(),
            forall|j: int| either.has(j) <==> (self.has(j) || rhs.has(j)),
    {
        proof {
            lemma_bit_or(self.bits, rhs.bits);
        }
        MaskRow { bits: self.bits | rhs.bits }
    }
}

impl vstd::std_specs::ops::BitOrSpecImpl for MaskRow {
    open spec fn obeys_bitor_spec() -> bool {
        true
    }

    open spec fn bitor_req(self, rhs: MaskRow) -> bool {
        self.wf() && rhs.wf()
    }

    closed spec fn bitor_spec(self, rhs: MaskRow) -> MaskRow {
        MaskRow { bits: self.bits | rhs.bits }
    }
}

impl core::ops::Not for MaskRow {
    type Output = MaskRow;

    /// The columns of the board that are not set in this row.
    fn not(self) -> (rest: MaskRow)
        ensures
            rest.wf(),
            forall|j: int| rest.has(j) <==> (0 <= j < 19 && !self.has(j)),
    {
        proof {
            lemma_bit_not(self.bits);
        }
        MaskRow { bits: !self.bits & ROW_FULL }
    }
}

impl vstd::std_specs::ops::NotSpecImpl for MaskRow {
    open spec fn obeys_not_spec() -> bool {
        true
    }

    open spec fn not_req(self) -> bool {
        true
    }

    closed spec fn not_spec(self) -> MaskRow {
        MaskRow { bits: !self.bits & ROW_FULL }
    }
}

impl core::ops::Shl<usize> for MaskRow {
    type Output = MaskRow;

    /// Every set column moved `rhs` columns up. What passes column 18 is
    /// lost.
    fn shl(self, rhs: usize) -> (moved: MaskRow)
        ensures
            moved.wf(),
            forall|j: int| moved.has(j) <==> (0 <= j < 19 && self.has(j - rhs)),
    {
        let n: u32 = rhs as u32;
        proof {
            lemma_bit_shl(self.bits, n);
        }
        MaskRow { bits: (self.bits << n) & ROW_FULL }
    }
}

impl vstd::std_specs::ops::ShlSpecImpl<usize> for MaskRow {
    open spec fn obeys_shl_spec() -> bool {
        true
    }

    open spec fn shl_req(self, rhs: usize) -> bool {
        self.wf() && rhs < 32
    }

    closed spec fn shl_spec(self, rhs: usize) -> MaskRow {
        MaskRow { bits: (self.bits << (rhs as u32)) & ROW_FULL }
    }
}

impl core::ops::Shr<usize> for MaskRow {
    type Output = MaskRow;

    /// Every set column moved `rhs` columns down. What passes column 0 is
    /// lost.
    fn shr(self, rhs: usize) -> (moved: MaskRow)
        ensures
            moved.wf(),
            forall|j: int| moved.has(j) <==> (0 <= j < 19 && self.has(j + rhs)),
    {
        let n: u32 = rhs as u32;
        proof {
            lemma_bit_shr(self.bits, n);
        }
        MaskRow { bits: self.bits >> n }
    }
}

impl vstd::std_specs::ops::ShrSpecImpl<usize> for MaskRow {
    open spec fn obeys_shr_spec() -> bool {
        true
    }

    open spec fn shr_req(self, rhs: usize) -> bool {
        self.wf() && rhs < 32
    }

    closed spec fn shr_spec(self, rhs: usize) -> MaskRow {
        MaskRow { bits: self.bits >> (rhs as u32) }
    }
}

impl core::ops::Deref for MaskRow {
    type Target = u32;

    /// The row's bits as a number.
    fn deref(&self) -> (value: &u32)
        ensures
            *value == self.raw(),
    {
        &self.bits
    }
}

impl Default for MaskRow {
    /// The row with no column set.
    fn default() -> (row: MaskRow)
        ensures
            row.wf(),
            row.raw() == 0,
            forall|j: int| !row.has(j),
    {
        MaskRow::empty()
    }
}

impl core::ops::BitAndAssign for MaskRow {
    /// Keeps the columns that `rhs` has too.
    fn bitand_assign(&mut self, rhs: MaskRow)
        requires
            old(self).wf(),
            rhs.wf(),
        ensures
            final(self).wf(),
            forall|j: int| final(self).has(j) <==> (old(self).has(j) && rhs.has(j)),
    {
        proof {
            lemma_bit_and(self.bits, rhs.bits);
        }
        self.bits = self.bits & rhs.bits;
    }
}

impl core::ops::BitOrAssign for MaskRow {
    /// Adds the columns of `rhs`.
    fn bitor_assign(&mut self, rhs: MaskRow)
        requires
            old(self).wf(),
            rhs.wf(),
        ensures
            final(self).wf(),
            forall|j: int| final(self).has(j) <==> (old(self).has(j) || rhs.has(j)),
    {
        proof {
            lemma_bit_or(self.bits, rhs.bits);
        }
        self.bits = self.bits | rhs.bits;
    }
}

impl core::ops::ShlAssign<usize> for MaskRow {
    /// Moves every set column `rhs` columns up. What passes column 18 is
    /// lost.
    fn shl_assign(&mut self, rhs: usize)
        requires
            old(self).wf(),
            rhs < 32,
        ensures
            final(self).wf(),
            forall|j: int| final(self).has(j) <==> (0 <= j < 19 && old(self).has(j - rhs)),
    {
        let n: u32 = rhs as u32;
        proof {
            lemma_bit_shl(self.bits, n);
        }
        self.bits = (self.bits << n) & ROW_FULL;
    }
}

impl core::ops::ShrAssign<usize> for MaskRow {
    /// Moves every set column `rhs` columns down. What passes column 0 is
    /// lost.
    fn shr_assign(&mut self, rhs: usize)
        requires
            old(self).wf(),
            rhs < 32,
        ensures
            final(self).wf(),
            forall|j: int| final(self).has(j) <==> (0 <= j < 19 && old(self).has(j + rhs)),
    {
        let n: u32 = rhs as u32;
        proof {
            lemma_bit_shr(self.bits, n);
        }
        self.bits = self.bits >> n;
    }
}

} // verus!
