use vstd::prelude::*;

verus! {

/// The nineteen low bits: a row with a stone on every column.
pub const ROW_FULL: u32 = 0x7FFFF;

/// Whether bit `i` of `v` is set.
pub open spec fn bit(v: u32, i: u32) -> bool {
    (v >> i) & 1 == 1
}

/// `v` with its two horizontal neighbours folded in, cut to nineteen bits.
pub open spec fn spread(v: u32) -> u32 {
    ((v << 1) | v | (v >> 1)) & ROW_FULL
}

pub proof fn lemma_bit_of_zero()
    by (bit_vector)
    ensures
        forall|j: u32| j < 19 ==> !#[trigger] bit(0u32, j),
{
}

pub proof fn lemma_bit_of_full()
    by (bit_vector)
    ensures
        forall|j: u32| j < 19 ==> #[trigger] bit(0x7FFFFu32, j),
{
}

pub proof fn lemma_bit_set(v: u32, i: u32)
    by (bit_vector)
    requires
        v <= 0x7FFFF,
        i < 19,
    ensures
        (v | (1u32 << i)) <= 0x7FFFF,
        forall|j: u32| j < 19 ==> (#[trigger] bit(v | (1u32 << i), j) <==> (j == i || bit(v, j))),
{
}

pub proof fn lemma_bit_unset(v: u32, i: u32)
    by (bit_vector)
    requires
        v <= 0x7FFFF,
        i < 19,
    ensures
        (v & !(1u32 << i)) <= 0x7FFFF,
        forall|j: u32| j < 19 ==> (#[trigger] bit(v & !(1u32 << i), j) <==> (j != i && bit(v, j))),
{
}

pub proof fn lemma_bit_and(a: u32, b: u32)
    by (bit_vector)
    requires
        a <= 0x7FFFF,
    ensures
        (a & b) <= 0x7FFFF,
        forall|j: u32| j < 19 ==> (#[trigger] bit(a & b, j) <==> (bit(a, j) && bit(b, j))),
{
}

pub proof fn lemma_bit_or(a: u32, b: u32)
    by (bit_vector)
    requires
        a <= 0x7FFFF,
        b <= 0x7FFFF,
    ensures
        (a | b) <= 0x7FFFF,
        forall|j: u32| j < 19 ==> (#[trigger] bit(a | b, j) <==> (bit(a, j) || bit(b, j))),
{
}

pub proof fn lemma_bit_not(a: u32)
    by (bit_vector)
    ensures
        (!a & 0x7FFFF) <= 0x7FFFF,
        forall|j: u32| j < 19 ==> (#[trigger] bit(!a & 0x7FFFF, j) <==> !bit(a, j)),
{
}

pub proof fn lemma_bit_spread(v: u32)
    by (bit_vector)
    requires
        v <= 0x7FFFF,
    ensures
        spread(v) <= 0x7FFFF,
        forall|j: u32| j < 19 ==> (#[trigger] bit(spread(v), j) <==> (bit(v, j) || (j > 0 && bit(v, (j - 1) as u32)) || (j < 18 && bit(v, (j + 1) as u32)))),
{
}

pub proof fn lemma_bit_shl(v: u32, n: u32)
    by (bit_vector)
    requires
        v <= 0x7FFFF,
        n < 32,
    ensures
        ((v << n) & 0x7FFFF) <= 0x7FFFF,
        forall|j: u32| j < 19 ==> (#[trigger] bit((v << n) & 0x7FFFF, j) <==> (j >= n && bit(v, (j - n) as u32))),
{
}

pub proof fn lemma_bit_shr(v: u32, n: u32)
    by (bit_vector)
    requires
        v <= 0x7FFFF,
        n < 32,
    ensures
        (v >> n) <= 0x7FFFF,
        forall|j: u32| j < 19 ==> (#[trigger] bit(v >> n, j) <==> (j + n < 19 && bit(v, (j + n) as u32))),
{
}

proof fn lemma_bits_decide(a: u32, b: u32)
    by (bit_vector)
    requires
        a <= 0x7FFFF,
        b <= 0x7FFFF,
        bit(a, 0) == bit(b, 0) && bit(a, 1) == bit(b, 1) && bit(a, 2) == bit(b, 2) && bit(a, 3) == bit(b, 3) && bit(a, 4) == bit(b, 4) && bit(a, 5) == bit(b, 5) && bit(a, 6) == bit(b, 6) && bit(a, 7) == bit(b, 7) && bit(a, 8) == bit(b, 8) && bit(a, 9) == bit(b, 9) && bit(a, 10) == bit(b, 10) && bit(a, 11) == bit(b, 11) && bit(a, 12) == bit(b, 12) && bit(a, 13) == bit(b, 13) && bit(a, 14) == bit(b, 14) && bit(a, 15) == bit(b, 15) && bit(a, 16) == bit(b, 16) && bit(a, 17) == bit(b, 17) && bit(a, 18) == bit(b, 18),
    ensures
        a == b,
{
}

/// Two rows of nineteen bits that agree on every column are the same number.
pub proof fn lemma_bits_equal(a: u32, b: u32)
    requires
        a <= ROW_FULL,
        b <= ROW_FULL,
        forall|j: u32| j < 19 ==> bit(a, j) == bit(b, j),
    ensures
        a == b,
{
    lemma_bits_decide(a, b);
}

/// A row of nineteen bits with no column set is zero.
pub proof fn lemma_bits_none(a: u32)
    requires
        a <= ROW_FULL,
        forall|j: u32| j < 19 ==> !bit(a, j),
    ensures
        a == 0,
{
    lemma_bit_of_zero();
    lemma_bits_equal(a, 0);
}

} // verus!
