//! Fixed-point arithmetic used throughout the TETRA speech codec.
//!
//! The codec (EN 300 395-2) is a bit-exact fixed-point algorithm built on a
//! small set of saturating 16-/32-bit integer operators. Every operator here
//! states its exact numerical result over the mathematical integers: a value
//! is computed exactly and then clamped to the 16- or 32-bit range.
//!
//! Saturation is observable through an explicit [`overflow::OverflowFlag`]
//! that the few rescaling algorithms of the codec thread through their
//! accumulations.

pub mod dsp_ops;
pub mod ext;
pub mod math;
pub mod ops;
pub mod overflow;
pub mod shift_facts;

use vstd::prelude::*;

verus! {

/// 16-bit signed word.
pub type Word16 = i16;

/// 32-bit signed word.
pub type Word32 = i32;

/// Largest 16-bit value, `0x7FFF`.
pub const MAX_16: Word16 = 32767;

/// Smallest 16-bit value, `0x8000`.
pub const MIN_16: Word16 = -32768;

/// Largest 32-bit value, `0x7FFF_FFFF`.
pub const MAX_32: Word32 = 2147483647;

/// Smallest 32-bit value, `0x8000_0000`.
pub const MIN_32: Word32 = -2147483648;

} // verus!
