use vstd::prelude::*;

use crate::range::{
    check_domain_i64, check_domain_u32, check_domain_u64, dr_int_i64, dr_int_u32, dr_int_u64,
    within_domain, DimensionRange,
};
use vstd::arithmetic::power2::{lemma2_to64_rest, lemma_pow2_strictly_increases, pow2};

verus! {

/// The highest zoom level an identifier may carry; it keeps every scaled
/// coordinate inside the machine words that hold it.
pub const MAX_ZOOM: u16 = 62;

/// Why a tile identifier could not be constructed.
#[derive(Clone, Copy, Debug, PartialEq, Eq, Structural)]
pub enum IdError {
    ZoomTooLarge,
    ZeroTimeUnits,
    XOutOfBounds,
    YOutOfBounds,
    VerticalOutOfBounds,
    TimeOutOfBounds,
}

/// A five-axis tile identifier: planar cell ranges `x`, `y` out of `2^z`
/// cells per axis, a vertical cell range `f` out of `[-2^z, 2^z)`, and a
/// time slice range `t` out of `i` equal slices of the epoch.
#[derive(Clone, Copy, Debug, PartialEq, Eq, Structural)]
pub struct SpaceTimeId {
    pub z: u16,
    pub f: DimensionRange<i64>,
    pub x: DimensionRange<u64>,
    pub y: DimensionRange<u64>,
    pub i: u32,
    pub t: DimensionRange<u32>,
}

impl SpaceTimeId {
    /// The zoom and time resolutions are representable and every axis
    /// interval lies inside its domain at those resolutions.
    pub open spec fn wf(self) -> bool {
        &&& self.z <= MAX_ZOOM
        &&& self.i >= 1
        &&& within_domain(dr_int_u64(self.x), 0, pow2(self.z as nat) - 1)
        &&& within_domain(dr_int_u64(self.y), 0, pow2(self.z as nat) - 1)
        &&& within_domain(
            dr_int_i64(self.f),
            -(pow2(self.z as nat) as int),
            pow2(self.z as nat) - 1,
        )
        &&& within_domain(dr_int_u32(self.t), 0, self.i - 1)
    }

    /// Builds an identifier after validating every axis against the given
    /// resolutions; returns it exactly when the fields are well-formed, and
    /// otherwise names the first axis that fails.
    pub fn new(
        z: u16,
        f: DimensionRange<i64>,
        x: DimensionRange<u64>,
        y: DimensionRange<u64>,
        i: u32,
        t: DimensionRange<u32>,
    ) -> (r: Result<SpaceTimeId, IdError>)
        ensures
            r is Ok <==> (SpaceTimeId { z, f, x, y, i, t }).wf(),
            r is Ok ==> r == Ok::<SpaceTimeId, IdError>(SpaceTimeId { z, f, x, y, i, t }),
            r == Err::<SpaceTimeId, IdError>(IdError::ZoomTooLarge) <==> z > MAX_ZOOM,
            r == Err::<SpaceTimeId, IdError>(IdError::ZeroTimeUnits) <==> (z <= MAX_ZOOM && i
                == 0),
    {
        if z > MAX_ZOOM {
            return Err(IdError::ZoomTooLarge);
        }
        if i == 0 {
            return Err(IdError::ZeroTimeUnits);
        }
        let p = crate::num::pow2_u64(z);
        proof {
            lemma_pow2_strictly_increases(z as nat, 63);
            lemma2_to64_rest();
        }
        let max = p - 1;
        if !check_domain_u64(x, 0, max) {
            return Err(IdError::XOutOfBounds);
        }
        if !check_domain_u64(y, 0, max) {
            return Err(IdError::YOutOfBounds);
        }
        if !check_domain_i64(f, -(p as i64), max as i64) {
            return Err(IdError::VerticalOutOfBounds);
        }
        if !check_domain_u32(t, 0, i - 1) {
            return Err(IdError::TimeOutOfBounds);
        }
        Ok(SpaceTimeId { z, f, x, y, i, t })
    }
}

} // verus!
