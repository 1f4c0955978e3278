//! How far the frame on screen is from the target frame, around the ring
//! of frames; the easing curves built on it work in floating point and stay
//! with the caller.
use vstd::prelude::*;

verus! {

/// The frame at which the effects peak.
pub const TARGET_FRAME: usize = 30;

/// Frames to step forward from the target to reach `frame_index`, in a ring of `n`.
pub open spec fn forward_steps(frame_index: int, n: int) -> int {
    (frame_index - TARGET_FRAME) % n
}

/// The shorter way around the ring between `frame_index` and the target.
pub open spec fn ring_distance(frame_index: int, n: int) -> int {
    let fwd = forward_steps(frame_index, n);
    if fwd <= n - fwd {
        fwd
    } else {
        n - fwd
    }
}

/// Distance, in frames and the shorter way around a ring of `frame_count`,
/// from `frame_index` to the target frame.
pub fn target_distance(frame_index: usize, frame_count: usize) -> (d: usize)
    requires
        0 < frame_count <= isize::MAX,
        frame_index <= isize::MAX,
    ensures
        d == ring_distance(frame_index as int, frame_count as int),
{
    let total = frame_count as isize;
    let diff = frame_index as isize - TARGET_FRAME as isize;
    let fwd = diff.checked_rem_euclid(total).unwrap() as usize;
    let bwd = frame_count - fwd;
    if fwd <= bwd {
        fwd
    } else {
        bwd
    }
}

/// The distance is never more than half the ring, and is 0 exactly at the
/// target frame (taken around the ring).
pub proof fn lemma_ring_distance(frame_index: int, n: int)
    requires
        n > 0,
    ensures
        0 <= ring_distance(frame_index, n) <= n / 2,
        ring_distance(frame_index, n) == 0 <==> forward_steps(frame_index, n) == 0,
{
}

} // verus!
