//! Readings shared between the thread that receives debug overrides and the
//! renderer: each reading is an optional number held as the bits of an
//! `f64`, with NaN standing for "absent".
use std::sync::Arc;
use std::sync::atomic::{AtomicU64, Ordering};
use vstd::prelude::*;

verus! {

/// The bits of the quiet NaN that marks an absent reading.
pub const NAN_BITS: u64 = 0x7ff8_0000_0000_0000;

/// Whether `bits` encode an IEEE 754 NaN: the exponent is all ones and the
/// fraction is not zero.
pub open spec fn is_nan_bits(bits: u64) -> bool {
    (bits & 0x7fff_ffff_ffff_ffff) > 0x7ff0_0000_0000_0000
}

/// The reading that `bits` stand for.
pub open spec fn decoded(bits: u64) -> Option<u64> {
    if is_nan_bits(bits) {
        None
    } else {
        Some(bits)
    }
}

/// The bits that store `reading`.
pub open spec fn encoded(reading: Option<u64>) -> u64 {
    match reading {
        Some(bits) => bits,
        None => NAN_BITS,
    }
}

/// The reading that a stored `f64` bit pattern stands for: absent for NaN.
pub fn decode_reading(bits: u64) -> (r: Option<u64>)
    ensures
        r == decoded(bits),
{
    if (bits & 0x7fff_ffff_ffff_ffff) > 0x7ff0_0000_0000_0000 {
        None
    } else {
        Some(bits)
    }
}

/// The bit pattern that stores `reading`: NaN when it is absent.
pub fn encode_reading(reading: Option<u64>) -> (r: u64)
    ensures
        r == encoded(reading),
{
    match reading {
        Some(bits) => bits,
        None => NAN_BITS,
    }
}

/// Storing a reading and reading it back gives it back, for every present
/// value that is not itself a NaN; an absent reading reads back as absent.
pub proof fn lemma_reading_round_trip(reading: Option<u64>)
    requires
        reading matches Some(bits) ==> !is_nan_bits(bits),
    ensures
        decoded(encoded(reading)) == reading,
{
    assert((0x7ff8_0000_0000_0000u64 & 0x7fff_ffff_ffff_ffffu64) > 0x7ff0_0000_0000_0000u64)
        by (bit_vector);
}

/// The latest brightness and scale overrides, shared across threads.
pub struct DebugState {
    pub brightness: AtomicU64,
    pub scale: AtomicU64,
}

impl DebugState {
    /// Both readings absent: each cell starts at `NAN_BITS`. The contract
    /// does not say so, since the contents of a std atomic have no view.
    pub fn new() -> (r: Arc<Self>) {
        Arc::new(
            DebugState { brightness: AtomicU64::new(NAN_BITS), scale: AtomicU64::new(NAN_BITS) },
        )
    }

    /// The brightness override, as `f64` bits, if one is present: the last
    /// stored bits, read by `decode_reading`. Which bits the load sees
    /// depends on what other threads stored, so only its decoding is stated.
    pub fn brightness_bits(&self) -> (r: Option<u64>)
        ensures
            r matches Some(bits) ==> !is_nan_bits(bits),
    {
        let bits = self.brightness.load(Ordering::Relaxed);
        decode_reading(bits)
    }

    /// The scale override, as `f64` bits, if one is present: the last stored
    /// bits, read by `decode_reading`. Which bits the load sees depends on
    /// what other threads stored, so only its decoding is stated.
    pub fn scale_bits(&self) -> (r: Option<u64>)
        ensures
            r matches Some(bits) ==> !is_nan_bits(bits),
    {
        let bits = self.scale.load(Ordering::Relaxed);
        decode_reading(bits)
    }

    /// Publishes new overrides; an absent one is stored as NaN.
    pub fn store(&self, brightness: Option<u64>, scale: Option<u64>) {
        self.brightness.store(encode_reading(brightness), Ordering::Relaxed);
        self.scale.store(encode_reading(scale), Ordering::Relaxed);
    }
}

/// The handle through which the renderer reads the debug overrides.
pub struct DebugReceiver {
    pub state: Arc<DebugState>,
}

} // verus!
