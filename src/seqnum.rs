//! Arithmetic and ordering in the 32-bit wrapping sequence space.

use vstd::prelude::*;

verus! {

/// The size of the sequence space.
pub const SEQ_SPACE: u64 = 0x1_0000_0000;

/// Half of the sequence space: the largest distance that is still "ahead".
pub const SEQ_HALF: u32 = 0x8000_0000;

/// Forward distance from `a` to `b`, modulo 2^32.
pub open spec fn seq_dist(a: u32, b: u32) -> int {
    (b as int - a as int) % (SEQ_SPACE as int)
}

/// `a <= b` in sequence space: `(b - a) as i32 >= 0`.
pub open spec fn seq_le_spec(a: u32, b: u32) -> bool {
    seq_dist(a, b) < SEQ_HALF as int
}

/// `a < b` in sequence space.
pub open spec fn seq_lt_spec(a: u32, b: u32) -> bool {
    seq_le_spec(a, b) && a != b
}

/// `a + n` in sequence space.
pub open spec fn seq_add_spec(a: u32, n: int) -> u32 {
    ((a as int + n) % (SEQ_SPACE as int)) as u32
}

/// Forward distance from `a` to `b`, wrapping.
pub fn seq_distance(a: u32, b: u32) -> (r: u32)
    ensures
        r as int == seq_dist(a, b),
{
    if b >= a {
        b - a
    } else {
        (0xFFFF_FFFFu32 - a) + b + 1
    }
}

/// `a <= b` under wrap-around comparison.
pub fn seq_le(a: u32, b: u32) -> (r: bool)
    ensures
        r == seq_le_spec(a, b),
{
    seq_distance(a, b) < SEQ_HALF
}

/// `a < b` under wrap-around comparison.
pub fn seq_lt(a: u32, b: u32) -> (r: bool)
    ensures
        r == seq_lt_spec(a, b),
{
    a != b && seq_le(a, b)
}

/// `a + n`, wrapping around the sequence space.
pub fn seq_add(a: u32, n: u32) -> (r: u32)
    ensures
        r == seq_add_spec(a, n as int),
{
    if n <= 0xFFFF_FFFFu32 - a {
        a + n
    } else {
        n - (0xFFFF_FFFFu32 - a) - 1
    }
}

/// Ordering is decided by the forward distance alone: a value less than half
/// the space ahead of `a` compares as after `a`, even where its unsigned
/// value is smaller, and then `a` does not compare as after it.
pub proof fn lemma_wrap_order(a: u32, n: int)
    requires
        0 < n < SEQ_HALF as int,
    ensures
        seq_lt_spec(a, seq_add_spec(a, n)),
        !seq_le_spec(seq_add_spec(a, n), a),
{
}

/// Moving `b` on by `n` moves its distance from `a` on by `n`, while that
/// distance stays under half the space.
pub proof fn lemma_advance_le(a: u32, b: u32, n: int)
    requires
        0 <= n,
        seq_dist(a, b) + n < SEQ_HALF as int,
    ensures
        seq_dist(a, seq_add_spec(b, n)) == seq_dist(a, b) + n,
        seq_le_spec(a, seq_add_spec(b, n)),
{
}

/// Of two distinct values, exactly one is before the other.
pub proof fn lemma_seq_total(a: u32, b: u32)
    requires
        a != b,
        seq_dist(a, b) != SEQ_HALF as int,
    ensures
        seq_lt_spec(a, b) != seq_lt_spec(b, a),
{
}

} // verus!
