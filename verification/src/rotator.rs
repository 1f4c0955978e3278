//! The latest rotation angle, shared between the thread that reads the
//! sensor and the renderer, as the bits of an `f64`.
use std::sync::Arc;
use std::sync::atomic::{AtomicU64, Ordering};
use vstd::prelude::*;

verus! {

/// Calls `Arc::clone`: a second handle to the same angle cell, as the
/// standard library documents ("another pointer to the same allocation").
#[verifier::external_body]
fn share_cell(cell: &Arc<AtomicU64>) -> (r: Arc<AtomicU64>)
    ensures
        r == *cell,
{
    Arc::clone(cell)
}

/// Holds the latest angle reported by the sensor.
pub struct Rotator {
    angle: Arc<AtomicU64>,
}

impl Rotator {
    /// The cell that holds the angle.
    pub closed spec fn cell(&self) -> Arc<AtomicU64> {
        self.angle
    }

    /// A rotator whose angle is 0.0 (all bits clear) until a reading arrives.
    /// The contract does not say so, since the contents of a std atomic
    /// have no view.
    pub fn new() -> (r: Self) {
        Rotator { angle: Arc::new(AtomicU64::new(0)) }
    }

    /// A handle to the angle cell, for the thread that writes readings into it.
    pub fn shared(&self) -> (r: Arc<AtomicU64>)
        ensures
            r == self.cell(),
    {
        share_cell(&self.angle)
    }

    /// The bits of the latest angle: whatever the sensor thread last stored,
    /// which no contract can fix.
    pub fn angle_bits(&self) -> (r: u64) {
        self.angle.load(Ordering::Relaxed)
    }
}

} // verus!
