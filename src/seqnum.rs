//! Sequence numbers that wrap around modulo 2^32.

use vstd::prelude::*;

verus! {

/// The distance from `b` forward to `a`, modulo 2^32.
pub open spec fn seq_dist(a: u32, b: u32) -> int {
    if a >= b {
        a - b
    } else {
        a - b + 0x1_0000_0000
    }
}

/// `a + k` modulo 2^32.
pub open spec fn seq_add(a: u32, k: int) -> u32 {
    ((a + k) % 0x1_0000_0000) as u32
}

/// Executable form of `seq_dist`.
pub fn dist(a: u32, b: u32) -> (r: u32)
    ensures
        r == seq_dist(a, b),
{
    a.wrapping_sub(b)
}

/// Executable form of `seq_add` for a step of one.
pub fn next(a: u32) -> (r: u32)
    ensures
        r == seq_add(a, 1),
{
    a.wrapping_add(1)
}

/// Executable form of `seq_add` for a 32-bit step.
pub fn advance(a: u32, k: u32) -> (r: u32)
    ensures
        r == seq_add(a, k as int),
{
    a.wrapping_add(k)
}

pub proof fn lemma_dist_bounds(a: u32, b: u32)
    ensures
        0 <= seq_dist(a, b) < 0x1_0000_0000,
        seq_dist(a, b) == 0 <==> a == b,
{
}

pub proof fn lemma_add_dist(a: u32, k: int)
    requires
        0 <= k < 0x1_0000_0000,
    ensures
        seq_dist(seq_add(a, k), a) == k,
{
}

pub proof fn lemma_dist_add(a: u32, b: u32)
    ensures
        seq_add(b, seq_dist(a, b)) == a,
{
}

/// Moving the base forward by `d` shortens every distance of at least `d` by `d`.
pub proof fn lemma_dist_shift(s: u32, b: u32, nb: u32)
    requires
        seq_dist(nb, b) <= seq_dist(s, b),
    ensures
        seq_dist(s, nb) == seq_dist(s, b) - seq_dist(nb, b),
{
}

/// Moving the base forward by `d` past `s` puts `s` at distance `2^32 - (d - dist)`.
pub proof fn lemma_dist_shift_past(s: u32, b: u32, nb: u32)
    requires
        seq_dist(s, b) < seq_dist(nb, b),
    ensures
        seq_dist(s, nb) == seq_dist(s, b) - seq_dist(nb, b) + 0x1_0000_0000,
{
}

/// Stepping once after `j` steps is `j + 1` steps.
pub proof fn lemma_seq_add_step(a: u32, j: int)
    requires
        0 <= j,
    ensures
        seq_add(seq_add(a, j), 1) == seq_add(a, j + 1),
{
    vstd::arithmetic::div_mod::lemma_add_mod_noop(a + j, 1, 0x1_0000_0000);
}

pub proof fn lemma_seq_add_zero(a: u32)
    ensures
        seq_add(a, 0) == a,
{
}

} // verus!
