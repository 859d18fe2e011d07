//! Physical and grid constants of the mapped product.

use vstd::prelude::*;

verus! {

/// Specific heat capacity `cp0`, 3989.244 J/(kg K), as a double.
pub const CP0: u64 = 0x40af_2a7c_ed91_6873;

/// Reference density `rho0`, 1030 kg/m3, as a double.
pub const RHO0: u64 = 0x4090_1800_0000_0000;

/// Earth radius for cell areas, 6371000 m, as a double.
pub const EARTH_RADIUS_M: u64 = 0x4158_4dae_0000_0000;

/// Mapping grid longitude count (20.5 to 379.5, one degree apart).
pub const NLON: usize = 360;

/// Mapping grid latitude count (-89.5 to 89.5, one degree apart).
pub const NLAT: usize = 180;

/// Conditional-simulation ensemble size.
pub const NMEMBER: usize = 100;

} // verus!
