pub mod dsp;
pub mod filter;
pub mod gui;
pub mod simd_util;
pub mod smoothing;

pub use simd_util::{const_splat, enclosing_div, splat_slot, splat_stereo, swap_stereo};
