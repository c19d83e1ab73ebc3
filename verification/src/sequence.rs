//! Sequence numbers: 32-bit positions that wrap around.

use vstd::prelude::*;

verus! {

/// The sequence number that follows `seq`; the largest is followed by zero.
pub open spec fn seq_succ(seq: u32) -> u32 {
    if seq == u32::MAX {
        0
    } else {
        (seq + 1) as u32
    }
}

/// How many steps lead from `from` forward to `to`, counted around the ring
/// of 32-bit numbers.
pub open spec fn seq_distance(from: u32, to: u32) -> int {
    if to >= from {
        to - from
    } else {
        to - from + 0x1_0000_0000
    }
}

/// `a` lies after `b`: fewer than 2^31 steps lead from `b` forward to `a`,
/// and at least one. This is the sign of the 32-bit difference `a - b`.
pub open spec fn seq_after(a: u32, b: u32) -> bool {
    0 < seq_distance(b, a) < 0x8000_0000
}

/// The sequence number `steps` places after `seq`.
pub open spec fn seq_advance(seq: u32, steps: nat) -> u32
    decreases steps,
{
    if steps == 0 {
        seq
    } else {
        seq_succ(seq_advance(seq, (steps - 1) as nat))
    }
}

/// Computes `seq_succ`.
pub fn next_seq(seq: u32) -> (next: u32)
    ensures
        next == seq_succ(seq),
{
    seq.wrapping_add(1)
}

/// Computes `seq_after`.
pub fn is_after(a: u32, b: u32) -> (after: bool)
    ensures
        after == seq_after(a, b),
{
    let difference: u32 = a.wrapping_sub(b);
    difference != 0 && difference < 0x8000_0000
}

/// Advancing from the next number takes one step fewer.
pub proof fn lemma_seq_advance_shift(seq: u32, steps: nat)
    ensures
        seq_advance(seq_succ(seq), steps) == seq_advance(seq, steps + 1),
    decreases steps,
{
    reveal_with_fuel(seq_advance, 2);
    if steps > 0 {
        lemma_seq_advance_shift(seq, (steps - 1) as nat);
    }
}

/// Stepping forward moves every later number one step closer, and no
/// number is both after and before another.
pub proof fn lemma_seq_order(a: u32, b: u32)
    ensures
        !seq_after(a, a),
        seq_after(a, b) ==> !seq_after(b, a),
        seq_after(seq_succ(a), a),
        seq_after(a, b) && a != seq_succ(b) ==> seq_after(a, seq_succ(b)),
        seq_distance(b, a) > 0 ==> seq_distance(seq_succ(b), a) == seq_distance(b, a) - 1,
{
}

} // verus!
