//! Verified core of a rotation-driven image-sequence viewer: pixel
//! compositing, frame scaling, the decode-cache window, index transforms,
//! Art-Net packet framing and the small text scanners used on sensor input.
use vstd::prelude::*;

pub mod artnet;
pub mod controls;
pub mod debug_state;
pub mod displays;
pub mod easing;
pub mod files;
pub mod grid;
pub mod image_ops;
pub mod layout;
pub mod pixel;
pub mod rotator;
pub mod scaling;
pub mod scan;
pub mod sequence;
pub mod transform;
pub mod window;

verus! {
}
