//! The fixed-point format shared by every quantity of the field.
//!
//! A value `v` is stored as the integer `v * 2^32`. Intensities, extents and
//! the diffusion strength are unsigned; velocity components are signed.

use vstd::prelude::*;

verus! {

/// The stored form of 1.0.
pub const ONE: u64 = 0x1_0000_0000;

/// The largest stored level that the relaxation accepts. With every level at
/// or below it, the weighted sum of one stencil fits in 128 bits whatever the
/// diffusion strength.
pub const LEVEL_LIMIT: u64 = 0x2000_0000_0000_0000;

/// The intensity that seeding gives to the centre cell: 100.0.
pub const SEED_LEVEL: u64 = 0x64_0000_0000;

/// The horizontal velocity component that seeding gives to the centre cell: -5.0.
pub const SEED_VELOCITY_X: i64 = -0x5_0000_0000;

/// The vertical velocity component that seeding gives to the centre cell: 1.0.
pub const SEED_VELOCITY_Y: i64 = 0x1_0000_0000;

/// The number of sub-steps of one tick.
pub const DEFAULT_SUBSTEPS: u32 = 20;

/// The diffusion strength of one tick: 2.0.
pub const DEFAULT_STRENGTH: u64 = 0x2_0000_0000;

} // verus!
