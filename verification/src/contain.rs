use vstd::prelude::*;

use crate::id::{SpaceTimeId, MAX_ZOOM};
use crate::num::{gcd_s, gcd_u32, lcm_s, lemma_div_within, lemma_gcd_divides, pow2_u64};
use crate::range::{
    covers, dr_int_i64, dr_int_u32, dr_int_u64, hi_of, lemma_covers_bounds, lo_of, within_domain,
    DimensionRange,
};
use crate::range::DimensionRange as DR;
use vstd::arithmetic::div_mod::{lemma_div_by_multiple, lemma_fundamental_div_mod, lemma_mod_self_0};
use vstd::arithmetic::power2::{
    lemma2_to64, lemma2_to64_rest, lemma_pow2_adds, lemma_pow2_pos, lemma_pow2_strictly_increases,
    pow2,
};

verus! {

/// How one identifier's volume relates to another's: `Full` when the second
/// lies entirely inside the first, `Partial` with their exact intersection,
/// `Disjoint` when they share no volume.
#[derive(Clone, Copy, Debug, PartialEq, Eq, Structural)]
pub enum Containment {
    Full,
    Partial(SpaceTimeId),
    Disjoint,
}

/// The larger of two integers.
pub open spec fn imax(a: int, b: int) -> int {
    if a >= b {
        a
    } else {
        b
    }
}

/// The smaller of two integers.
pub open spec fn imin(a: int, b: int) -> int {
    if a <= b {
        a
    } else {
        b
    }
}

/// Least cell of a planar interval once rescaled from zoom `z` to the finer
/// common zoom `zc`.
pub open spec fn frame_lo_u64(r: DimensionRange<u64>, z: u16, zc: u16) -> int {
    lo_of(dr_int_u64(r), 0, pow2(z as nat) - 1) * pow2((zc - z) as nat)
}

/// Greatest cell of a planar interval once rescaled from zoom `z` to the
/// finer common zoom `zc`.
pub open spec fn frame_hi_u64(r: DimensionRange<u64>, z: u16, zc: u16) -> int {
    (hi_of(dr_int_u64(r), 0, pow2(z as nat) - 1) + 1) * pow2((zc - z) as nat) - 1
}

/// Least cell of a vertical interval once rescaled from zoom `z` to the
/// finer common zoom `zc`.
pub open spec fn frame_lo_i64(r: DimensionRange<i64>, z: u16, zc: u16) -> int {
    lo_of(dr_int_i64(r), -(pow2(z as nat) as int), pow2(z as nat) - 1) * pow2((zc - z) as nat)
}

/// Greatest cell of a vertical interval once rescaled from zoom `z` to the
/// finer common zoom `zc`.
pub open spec fn frame_hi_i64(r: DimensionRange<i64>, z: u16, zc: u16) -> int {
    (hi_of(dr_int_i64(r), -(pow2(z as nat) as int), pow2(z as nat) - 1) + 1) * pow2(
        (zc - z) as nat,
    ) - 1
}

/// First slice of a time interval once rescaled from `i` slices to the finer
/// common resolution of `l` slices.
pub open spec fn frame_lo_t(r: DimensionRange<u32>, i: u32, l: int) -> int {
    lo_of(dr_int_u32(r), 0, i - 1) * (l / i as int)
}

/// Last slice of a time interval once rescaled from `i` slices to the finer
/// common resolution of `l` slices.
pub open spec fn frame_hi_t(r: DimensionRange<u32>, i: u32, l: int) -> int {
    (hi_of(dr_int_u32(r), 0, i - 1) + 1) * (l / i as int) - 1
}

/// The canonical interval with bounds `[lo, hi]` over the planar domain
/// `[min, max]`.
pub open spec fn spec_to_range_u64(lo: int, hi: int, min: int, max: int) -> DimensionRange<u64> {
    if lo == min && hi == max {
        DimensionRange::Any
    } else if lo == hi {
        DimensionRange::Single(lo as u64)
    } else if lo == min {
        DimensionRange::BeforeUnLimitRange(hi as u64)
    } else if hi == max {
        DimensionRange::AfterUnLimitRange(lo as u64)
    } else {
        DimensionRange::LimitRange(lo as u64, hi as u64)
    }
}

/// The canonical interval with bounds `[lo, hi]` over the vertical domain
/// `[min, max]`.
pub open spec fn spec_to_range_i64(lo: int, hi: int, min: int, max: int) -> DimensionRange<i64> {
    if lo == min && hi == max {
        DimensionRange::Any
    } else if lo == hi {
        DimensionRange::Single(lo as i64)
    } else if lo == min {
        DimensionRange::BeforeUnLimitRange(hi as i64)
    } else if hi == max {
        DimensionRange::AfterUnLimitRange(lo as i64)
    } else {
        DimensionRange::LimitRange(lo as i64, hi as i64)
    }
}

/// The canonical interval with bounds `[lo, hi]` over the time domain
/// `[min, max]`.
pub open spec fn spec_to_range_u32(lo: int, hi: int, min: int, max: int) -> DimensionRange<u32> {
    if lo == min && hi == max {
        DimensionRange::Any
    } else if lo == hi {
        DimensionRange::Single(lo as u32)
    } else if lo == min {
        DimensionRange::BeforeUnLimitRange(hi as u32)
    } else if hi == max {
        DimensionRange::AfterUnLimitRange(lo as u32)
    } else {
        DimensionRange::LimitRange(lo as u32, hi as u32)
    }
}

/// The containment relation: both identifiers are brought to the finer
/// common zoom and to the least common multiple of their time resolutions,
/// and their per-axis cell ranges are compared there.
pub open spec fn spec_classify(a: SpaceTimeId, b: SpaceTimeId) -> Containment {
    let zc = if a.z >= b.z {
        a.z
    } else {
        b.z
    };
    let l = lcm_s(a.i as nat, b.i as nat) as int;
    let xal = frame_lo_u64(a.x, a.z, zc);
    let xah = frame_hi_u64(a.x, a.z, zc);
    let xbl = frame_lo_u64(b.x, b.z, zc);
    let xbh = frame_hi_u64(b.x, b.z, zc);
    let yal = frame_lo_u64(a.y, a.z, zc);
    let yah = frame_hi_u64(a.y, a.z, zc);
    let ybl = frame_lo_u64(b.y, b.z, zc);
    let ybh = frame_hi_u64(b.y, b.z, zc);
    let fal = frame_lo_i64(a.f, a.z, zc);
    let fah = frame_hi_i64(a.f, a.z, zc);
    let fbl = frame_lo_i64(b.f, b.z, zc);
    let fbh = frame_hi_i64(b.f, b.z, zc);
    let tal = frame_lo_t(a.t, a.i, l);
    let tah = frame_hi_t(a.t, a.i, l);
    let tbl = frame_lo_t(b.t, b.i, l);
    let tbh = frame_hi_t(b.t, b.i, l);
    if xah < xbl || xbh < xal || yah < ybl || ybh < yal || fah < fbl || fbh < fal || tah < tbl
        || tbh < tal {
        Containment::Disjoint
    } else if xal <= xbl && xbh <= xah && yal <= ybl && ybh <= yah && fal <= fbl && fbh <= fah
        && tal <= tbl && tbh <= tah {
        Containment::Full
    } else {
        Containment::Partial(
            SpaceTimeId {
                z: zc,
                i: l as u32,
                x: spec_to_range_u64(imax(xal, xbl), imin(xah, xbh), 0, pow2(zc as nat) - 1),
                y: spec_to_range_u64(imax(yal, ybl), imin(yah, ybh), 0, pow2(zc as nat) - 1),
                f: spec_to_range_i64(
                    imax(fal, fbl),
                    imin(fah, fbh),
                    -(pow2(zc as nat) as int),
                    pow2(zc as nat) - 1,
                ),
                t: spec_to_range_u32(imax(tal, tbl), imin(tah, tbh), 0, l - 1),
            },
        )
    }
}

/// Rescales a planar interval to the common zoom and returns its cell bounds
/// there.
pub(crate) fn frame_bounds_u64(r: DimensionRange<u64>, z: u16, zc: u16) -> (b: (u64, u64))
    requires
        z <= zc,
        zc <= 62,
        within_domain(dr_int_u64(r), 0, pow2(z as nat) - 1),
    ensures
        b.0 as int == frame_lo_u64(r, z, zc),
        b.1 as int == frame_hi_u64(r, z, zc),
        b.0 <= b.1,
        (b.1 as int) < pow2(zc as nat),
{
    let max = pow2_u64(z) - 1;
    let fac = pow2_u64(zc - z);
    let (lo, hi): (u64, u64) = match r {
        DR::Single(p) => (p, p),
        DR::LimitRange(s, e) => (s, e),
        DR::AfterUnLimitRange(s) => (s, max),
        DR::BeforeUnLimitRange(e) => (0, e),
        DR::Any => (0, max),
    };
    proof {
        lemma_pow2_adds(z as nat, (zc - z) as nat);
        lemma_pow2_strictly_increases(zc as nat, 63);
        lemma2_to64_rest();
        assert((hi as int + 1) * (fac as int) <= pow2(zc as nat)) by (nonlinear_arith)
            requires
                hi as int + 1 <= pow2(z as nat),
                fac as int == pow2((zc - z) as nat),
                pow2(z as nat) * pow2((zc - z) as nat) == pow2(zc as nat),
                fac >= 1,
        ;
        assert(lo as int * (fac as int) + fac as int <= (hi as int + 1) * (fac as int))
            by (nonlinear_arith)
            requires
                lo <= hi,
                fac >= 1,
        ;
    }
    (lo * fac, (hi + 1) * fac - 1)
}

/// Rescales a vertical interval to the common zoom and returns its cell
/// bounds there.
pub(crate) fn frame_bounds_i64(r: DimensionRange<i64>, z: u16, zc: u16) -> (b: (i64, i64))
    requires
        z <= zc,
        zc <= 62,
        within_domain(dr_int_i64(r), -(pow2(z as nat) as int), pow2(z as nat) - 1),
    ensures
        b.0 as int == frame_lo_i64(r, z, zc),
        b.1 as int == frame_hi_i64(r, z, zc),
        b.0 <= b.1,
        (b.1 as int) < pow2(zc as nat),
        -(pow2(zc as nat) as int) <= b.0 as int,
{
    let p = pow2_u64(z);
    proof {
        lemma_pow2_strictly_increases(z as nat, 63);
        lemma2_to64_rest();
    }
    let minv = -(p as i64);
    let maxv = (p - 1) as i64;
    let fac = pow2_u64(zc - z);
    let (lo, hi): (i64, i64) = match r {
        DR::Single(p) => (p, p),
        DR::LimitRange(s, e) => (s, e),
        DR::AfterUnLimitRange(s) => (s, maxv),
        DR::BeforeUnLimitRange(e) => (minv, e),
        DR::Any => (minv, maxv),
    };
    proof {
        if ((zc - z) as nat) < 63 {
            lemma_pow2_strictly_increases((zc - z) as nat, 63);
        }
        lemma2_to64_rest();
    }
    let faci = fac as i64;
    proof {
        lemma_pow2_adds(z as nat, (zc - z) as nat);
        lemma_pow2_strictly_increases(zc as nat, 63);
        assert((hi as int + 1) * (fac as int) <= pow2(zc as nat)) by (nonlinear_arith)
            requires
                hi as int + 1 <= pow2(z as nat),
                fac as int == pow2((zc - z) as nat),
                pow2(z as nat) * pow2((zc - z) as nat) == pow2(zc as nat),
                fac >= 1,
        ;
        assert(-(pow2(zc as nat) as int) <= lo as int * (fac as int)) by (nonlinear_arith)
            requires
                -(pow2(z as nat) as int) <= lo as int,
                fac as int == pow2((zc - z) as nat),
                pow2(z as nat) * pow2((zc - z) as nat) == pow2(zc as nat),
                fac >= 1,
        ;
        assert(lo as int * (fac as int) + fac as int <= (hi as int + 1) * (fac as int))
            by (nonlinear_arith)
            requires
                lo <= hi,
                fac >= 1,
        ;
    }
    (lo * faci, (hi + 1) * faci - 1)
}

/// Rescales a time interval from `i` slices to `i * k` slices and returns
/// its slice bounds there.
pub(crate) fn frame_bounds_t(r: DimensionRange<u32>, i: u32, k: u32) -> (b: (u32, u32))
    requires
        i >= 1,
        k >= 1,
        i as int * k as int <= u32::MAX as int,
        within_domain(dr_int_u32(r), 0, i - 1),
    ensures
        b.0 as int == lo_of(dr_int_u32(r), 0, i - 1) * k as int,
        b.1 as int == (hi_of(dr_int_u32(r), 0, i - 1) + 1) * k as int - 1,
        b.0 <= b.1,
        (b.1 as int) < i as int * k as int,
{
    let max = i - 1;
    let (lo, hi): (u32, u32) = match r {
        DR::Single(p) => (p, p),
        DR::LimitRange(s, e) => (s, e),
        DR::AfterUnLimitRange(s) => (s, max),
        DR::BeforeUnLimitRange(e) => (0, e),
        DR::Any => (0, max),
    };
    proof {
        assert((hi as int + 1) * (k as int) <= i as int * k as int) by (nonlinear_arith)
            requires
                hi as int + 1 <= i as int,
                k >= 1,
        ;
        assert(lo as int * (k as int) + k as int <= (hi as int + 1) * (k as int))
            by (nonlinear_arith)
            requires
                lo <= hi,
                k >= 1,
        ;
    }
    (lo * k, (hi + 1) * k - 1)
}

/// The canonical interval with the given planar cell bounds.
pub(crate) fn to_range_u64(lo: u64, hi: u64, max: u64) -> (r: DimensionRange<u64>)
    requires
        lo <= hi,
        hi <= max,
    ensures
        r == spec_to_range_u64(lo as int, hi as int, 0, max as int),
        within_domain(dr_int_u64(r), 0, max as int),
{
    if lo == 0 && hi == max {
        DR::Any
    } else if lo == hi {
        DR::Single(lo)
    } else if lo == 0 {
        DR::BeforeUnLimitRange(hi)
    } else if hi == max {
        DR::AfterUnLimitRange(lo)
    } else {
        DR::LimitRange(lo, hi)
    }
}

/// The canonical interval with the given vertical cell bounds.
pub(crate) fn to_range_i64(lo: i64, hi: i64, min: i64, max: i64) -> (r: DimensionRange<i64>)
    requires
        min <= lo,
        lo <= hi,
        hi <= max,
    ensures
        r == spec_to_range_i64(lo as int, hi as int, min as int, max as int),
        within_domain(dr_int_i64(r), min as int, max as int),
{
    if lo == min && hi == max {
        DR::Any
    } else if lo == hi {
        DR::Single(lo)
    } else if lo == min {
        DR::BeforeUnLimitRange(hi)
    } else if hi == max {
        DR::AfterUnLimitRange(lo)
    } else {
        DR::LimitRange(lo, hi)
    }
}

/// The canonical interval with the given time slice bounds.
pub(crate) fn to_range_u32(lo: u32, hi: u32, max: u32) -> (r: DimensionRange<u32>)
    requires
        lo <= hi,
        hi <= max,
    ensures
        r == spec_to_range_u32(lo as int, hi as int, 0, max as int),
        within_domain(dr_int_u32(r), 0, max as int),
{
    if lo == 0 && hi == max {
        DR::Any
    } else if lo == hi {
        DR::Single(lo)
    } else if lo == 0 {
        DR::BeforeUnLimitRange(hi)
    } else if hi == max {
        DR::AfterUnLimitRange(lo)
    } else {
        DR::LimitRange(lo, hi)
    }
}

impl SpaceTimeId {
    /// Classifies `other` against `self`, exactly as `spec_classify` states:
    /// `Full` when `other`'s volume lies inside `self`'s, `Partial` carrying
    /// the per-axis intersection at the finer common resolution, `Disjoint`
    /// when some axis keeps them apart.
    pub fn containment_relation(&self, other: &SpaceTimeId) -> (r: Containment)
        requires
            self.wf(),
            other.wf(),
            lcm_s(self.i as nat, other.i as nat) <= u32::MAX as nat,
        ensures
            r == spec_classify(*self, *other),
            r matches Containment::Partial(o) ==> o.wf(),
    {
        let zc = if self.z >= other.z {
            self.z
        } else {
            other.z
        };
        let g = gcd_u32(self.i, other.i);
        proof {
            lemma_gcd_divides(self.i as nat, other.i as nat);
            lemma_fundamental_div_mod(self.i as int, g as int);
            lemma_fundamental_div_mod(other.i as int, g as int);
        }
        let ka = other.i / g;
        let kb = self.i / g;
        let ghost l: int = lcm_s(self.i as nat, other.i as nat) as int;
        proof {
            assert(l == kb as int * other.i as int);
            assert(l == self.i as int * ka as int && l == other.i as int * kb as int)
                by (nonlinear_arith)
                requires
                    self.i as int == g as int * kb as int,
                    other.i as int == g as int * ka as int,
                    l == kb as int * other.i as int,
            ;
            assert(ka >= 1 && kb >= 1) by (nonlinear_arith)
                requires
                    self.i as int == g as int * kb as int,
                    other.i as int == g as int * ka as int,
                    self.i >= 1,
                    other.i >= 1,
            ;
            lemma_div_by_multiple(ka as int, self.i as int);
            lemma_div_by_multiple(kb as int, other.i as int);
            assert(ka as int * self.i as int == l && kb as int * other.i as int == l)
                by (nonlinear_arith)
                requires
                    l == self.i as int * ka as int,
                    l == other.i as int * kb as int,
            ;
            assert(l / self.i as int == ka as int);
            assert(l / other.i as int == kb as int);
        }
        let (xal, xah) = frame_bounds_u64(self.x, self.z, zc);
        let (xbl, xbh) = frame_bounds_u64(other.x, other.z, zc);
        let (yal, yah) = frame_bounds_u64(self.y, self.z, zc);
        let (ybl, ybh) = frame_bounds_u64(other.y, other.z, zc);
        let (fal, fah) = frame_bounds_i64(self.f, self.z, zc);
        let (fbl, fbh) = frame_bounds_i64(other.f, other.z, zc);
        let (tal, tah) = frame_bounds_t(self.t, self.i, ka);
        let (tbl, tbh) = frame_bounds_t(other.t, other.i, kb);
        if xah < xbl || xbh < xal || yah < ybl || ybh < yal || fah < fbl || fbh < fal || tah < tbl
            || tbh < tal {
            return Containment::Disjoint;
        }
        if xal <= xbl && xbh <= xah && yal <= ybl && ybh <= yah && fal <= fbl && fbh <= fah && tal
            <= tbl && tbh <= tah {
            return Containment::Full;
        }
        let pmax = pow2_u64(zc) - 1;
        proof {
            lemma_pow2_strictly_increases(zc as nat, 63);
            lemma2_to64_rest();
        }
        let lu = if self.i >= other.i {
            self.i / g * other.i
        } else {
            other.i / g * self.i
        };
        proof {
            assert(lu as int == l) by (nonlinear_arith)
                requires
                    l == kb as int * other.i as int,
                    l == ka as int * self.i as int,
                    kb == self.i / g,
                    ka == other.i / g,
                    lu as int == if self.i >= other.i {
                        (self.i / g) as int * other.i as int
                    } else {
                        (other.i / g) as int * self.i as int
                    },
            ;
        }
        let ox = to_range_u64(
            if xal >= xbl {
                xal
            } else {
                xbl
            },
            if xah <= xbh {
                xah
            } else {
                xbh
            },
            pmax,
        );
        let oy = to_range_u64(
            if yal >= ybl {
                yal
            } else {
                ybl
            },
            if yah <= ybh {
                yah
            } else {
                ybh
            },
            pmax,
        );
        let of = to_range_i64(
            if fal >= fbl {
                fal
            } else {
                fbl
            },
            if fah <= fbh {
                fah
            } else {
                fbh
            },
            -(pmax as i64) - 1,
            pmax as i64,
        );
        let ot = to_range_u32(
            if tal >= tbl {
                tal
            } else {
                tbl
            },
            if tah <= tbh {
                tah
            } else {
                tbh
            },
            lu - 1,
        );
        Containment::Partial(SpaceTimeId { z: zc, f: of, x: ox, y: oy, i: lu, t: ot })
    }
}

/// The canonical interval built from valid bounds has exactly those bounds
/// and lies within its domain.
proof fn lemma_to_range_bounds_u64(lo: int, hi: int, min: int, max: int)
    requires
        min <= lo,
        lo <= hi,
        hi <= max,
        0 <= min,
        max <= u64::MAX,
    ensures
        lo_of(dr_int_u64(spec_to_range_u64(lo, hi, min, max)), min, max) == lo,
        hi_of(dr_int_u64(spec_to_range_u64(lo, hi, min, max)), min, max) == hi,
        within_domain(dr_int_u64(spec_to_range_u64(lo, hi, min, max)), min, max),
{
}

/// The canonical interval built from valid bounds has exactly those bounds
/// and lies within its domain.
proof fn lemma_to_range_bounds_i64(lo: int, hi: int, min: int, max: int)
    requires
        min <= lo,
        lo <= hi,
        hi <= max,
        i64::MIN <= min,
        max <= i64::MAX,
    ensures
        lo_of(dr_int_i64(spec_to_range_i64(lo, hi, min, max)), min, max) == lo,
        hi_of(dr_int_i64(spec_to_range_i64(lo, hi, min, max)), min, max) == hi,
        within_domain(dr_int_i64(spec_to_range_i64(lo, hi, min, max)), min, max),
{
}

/// The canonical interval built from valid bounds has exactly those bounds
/// and lies within its domain.
proof fn lemma_to_range_bounds_u32(lo: int, hi: int, min: int, max: int)
    requires
        min <= lo,
        lo <= hi,
        hi <= max,
        0 <= min,
        max <= u32::MAX,
    ensures
        lo_of(dr_int_u32(spec_to_range_u32(lo, hi, min, max)), min, max) == lo,
        hi_of(dr_int_u32(spec_to_range_u32(lo, hi, min, max)), min, max) == hi,
        within_domain(dr_int_u32(spec_to_range_u32(lo, hi, min, max)), min, max),
{
}

/// The identifier covers the spatio-temporal point whose planar and
/// vertical cells are `px`, `py`, `pf` at the finest representable zoom and
/// whose time instant is the fraction `tn / td` of the epoch.
pub open spec fn covers_point(
    id: SpaceTimeId,
    px: int,
    py: int,
    pf: int,
    tn: int,
    td: int,
) -> bool {
    let d = pow2((MAX_ZOOM - id.z) as nat) as int;
    &&& covers(dr_int_u64(id.x), 0, pow2(id.z as nat) - 1, px / d)
    &&& covers(dr_int_u64(id.y), 0, pow2(id.z as nat) - 1, py / d)
    &&& covers(dr_int_i64(id.f), -(pow2(id.z as nat) as int), pow2(id.z as nat) - 1, pf / d)
    &&& lo_of(dr_int_u32(id.t), 0, id.i - 1) * td <= tn * id.i
    &&& tn * id.i < (hi_of(dr_int_u32(id.t), 0, id.i - 1) + 1) * td
}

/// Classification is sound for full containment: when classifying `b`
/// against `a` yields `Full`, every point `b` covers is covered by `a`.
pub proof fn lemma_classify_full_covers(
    a: SpaceTimeId,
    b: SpaceTimeId,
    px: int,
    py: int,
    pf: int,
    tn: int,
    td: int,
)
    requires
        a.wf(),
        b.wf(),
        spec_classify(a, b) == Containment::Full,
        td >= 1,
        covers_point(b, px, py, pf, tn, td),
    ensures
        covers_point(a, px, py, pf, tn, td),
{
    let zc = if a.z >= b.z {
        a.z
    } else {
        b.z
    };
    let l = lcm_s(a.i as nat, b.i as nat) as int;
    let da = pow2((MAX_ZOOM - a.z) as nat) as int;
    let db = pow2((MAX_ZOOM - b.z) as nat) as int;
    let fa = pow2((zc - a.z) as nat) as int;
    let fb = pow2((zc - b.z) as nat) as int;
    let e = pow2((MAX_ZOOM - zc) as nat) as int;
    lemma_pow2_adds((zc - a.z) as nat, (MAX_ZOOM - zc) as nat);
    lemma_pow2_adds((zc - b.z) as nat, (MAX_ZOOM - zc) as nat);
    lemma_pow2_pos((zc - a.z) as nat);
    lemma_pow2_pos((zc - b.z) as nat);
    lemma_pow2_pos((MAX_ZOOM - zc) as nat);
    lemma_pow2_pos((MAX_ZOOM - a.z) as nat);
    lemma_pow2_pos((MAX_ZOOM - b.z) as nat);
    lemma_pow2_pos(a.z as nat);
    lemma_pow2_pos(b.z as nat);
    let amax = pow2(a.z as nat) - 1;
    let bmax = pow2(b.z as nat) - 1;
    lemma_covers_bounds(dr_int_u64(a.x), 0, amax);
    lemma_covers_bounds(dr_int_u64(a.y), 0, amax);
    lemma_covers_bounds(dr_int_i64(a.f), -(amax + 1), amax);
    lemma_covers_bounds(dr_int_u64(b.x), 0, bmax);
    lemma_covers_bounds(dr_int_u64(b.y), 0, bmax);
    lemma_covers_bounds(dr_int_i64(b.f), -(bmax + 1), bmax);
    let xla = lo_of(dr_int_u64(a.x), 0, amax);
    let xha = hi_of(dr_int_u64(a.x), 0, amax);
    let xlb = lo_of(dr_int_u64(b.x), 0, bmax);
    let xhb = hi_of(dr_int_u64(b.x), 0, bmax);
    let yla = lo_of(dr_int_u64(a.y), 0, amax);
    let yha = hi_of(dr_int_u64(a.y), 0, amax);
    let ylb = lo_of(dr_int_u64(b.y), 0, bmax);
    let yhb = hi_of(dr_int_u64(b.y), 0, bmax);
    let fla = lo_of(dr_int_i64(a.f), -(amax + 1), amax);
    let fha = hi_of(dr_int_i64(a.f), -(amax + 1), amax);
    let flb = lo_of(dr_int_i64(b.f), -(bmax + 1), bmax);
    let fhb = hi_of(dr_int_i64(b.f), -(bmax + 1), bmax);
    assert(frame_lo_u64(a.x, a.z, zc) <= frame_lo_u64(b.x, b.z, zc) && frame_hi_u64(b.x, b.z, zc)
        <= frame_hi_u64(a.x, a.z, zc) && frame_lo_u64(a.y, a.z, zc) <= frame_lo_u64(b.y, b.z, zc)
        && frame_hi_u64(b.y, b.z, zc) <= frame_hi_u64(a.y, a.z, zc) && frame_lo_i64(a.f, a.z, zc)
        <= frame_lo_i64(b.f, b.z, zc) && frame_hi_i64(b.f, b.z, zc) <= frame_hi_i64(
        a.f,
        a.z,
        zc,
    ) && frame_lo_t(a.t, a.i, l) <= frame_lo_t(b.t, b.i, l) && frame_hi_t(b.t, b.i, l)
        <= frame_hi_t(a.t, a.i, l));
    lemma_div_within(px, db, xlb, xhb);
    lemma_div_within(py, db, ylb, yhb);
    lemma_div_within(pf, db, flb, fhb);
    assert(xla * da <= xlb * db && (xhb + 1) * db <= (xha + 1) * da && yla * da <= ylb * db && (
    yhb + 1) * db <= (yha + 1) * da && fla * da <= flb * db && (fhb + 1) * db <= (fha + 1) * da)
        by (nonlinear_arith)
        requires
            xla * fa <= xlb * fb,
            (xhb + 1) * fb <= (xha + 1) * fa,
            yla * fa <= ylb * fb,
            (yhb + 1) * fb <= (yha + 1) * fa,
            fla * fa <= flb * fb,
            (fhb + 1) * fb <= (fha + 1) * fa,
            da == fa * e,
            db == fb * e,
            e >= 1,
    ;
    lemma_div_within(px, da, xla, xha);
    lemma_div_within(py, da, yla, yha);
    lemma_div_within(pf, da, fla, fha);
    let g = gcd_s(a.i as nat, b.i as nat);
    lemma_gcd_divides(a.i as nat, b.i as nat);
    lemma_fundamental_div_mod(a.i as int, g as int);
    lemma_fundamental_div_mod(b.i as int, g as int);
    let ka = b.i as int / g as int;
    let kb = a.i as int / g as int;
    assert(l == kb * b.i as int);
    assert(l == a.i as int * ka && l == b.i as int * kb && ka >= 1 && kb >= 1)
        by (nonlinear_arith)
        requires
            a.i as int == g as int * kb,
            b.i as int == g as int * ka,
            l == kb * b.i as int,
            a.i >= 1,
            b.i >= 1,
    ;
    lemma_div_by_multiple(ka, a.i as int);
    lemma_div_by_multiple(kb, b.i as int);
    assert(ka * a.i as int == l && kb * b.i as int == l) by (nonlinear_arith)
        requires
            l == a.i as int * ka,
            l == b.i as int * kb,
    ;
    assert(l / a.i as int == ka);
    assert(l / b.i as int == kb);
    let tla = lo_of(dr_int_u32(a.t), 0, a.i - 1);
    let tha = hi_of(dr_int_u32(a.t), 0, a.i - 1);
    let tlb = lo_of(dr_int_u32(b.t), 0, b.i - 1);
    let thb = hi_of(dr_int_u32(b.t), 0, b.i - 1);
    assert(tla * td <= tn * (a.i as int) && tn * (a.i as int) < (tha + 1) * td) by (nonlinear_arith)
        requires
            tlb * td <= tn * (b.i as int),
            tn * (b.i as int) < (thb + 1) * td,
            tla * ka <= tlb * kb,
            (thb + 1) * kb <= (tha + 1) * ka,
            l == a.i as int * ka,
            l == b.i as int * kb,
            ka >= 1,
            kb >= 1,
            td >= 1,
            a.i >= 1,
            b.i >= 1,
    ;
}

/// Classification is sound for disjointness: when classifying `b` against
/// `a` yields `Disjoint`, no point is covered by both.
pub proof fn lemma_classify_disjoint_covers(
    a: SpaceTimeId,
    b: SpaceTimeId,
    px: int,
    py: int,
    pf: int,
    tn: int,
    td: int,
)
    requires
        a.wf(),
        b.wf(),
        spec_classify(a, b) == Containment::Disjoint,
        td >= 1,
        covers_point(a, px, py, pf, tn, td),
    ensures
        !covers_point(b, px, py, pf, tn, td),
{
    if covers_point(b, px, py, pf, tn, td) {
        let zc = if a.z >= b.z {
            a.z
        } else {
            b.z
        };
        let l = lcm_s(a.i as nat, b.i as nat) as int;
        let da = pow2((MAX_ZOOM - a.z) as nat) as int;
        let db = pow2((MAX_ZOOM - b.z) as nat) as int;
        let fa = pow2((zc - a.z) as nat) as int;
        let fb = pow2((zc - b.z) as nat) as int;
        let e = pow2((MAX_ZOOM - zc) as nat) as int;
        lemma_pow2_adds((zc - a.z) as nat, (MAX_ZOOM - zc) as nat);
        lemma_pow2_adds((zc - b.z) as nat, (MAX_ZOOM - zc) as nat);
        lemma_pow2_pos((zc - a.z) as nat);
        lemma_pow2_pos((zc - b.z) as nat);
        lemma_pow2_pos((MAX_ZOOM - zc) as nat);
        lemma_pow2_pos((MAX_ZOOM - a.z) as nat);
        lemma_pow2_pos((MAX_ZOOM - b.z) as nat);
        lemma_pow2_pos(a.z as nat);
        lemma_pow2_pos(b.z as nat);
        let amax = pow2(a.z as nat) - 1;
        let bmax = pow2(b.z as nat) - 1;
        lemma_covers_bounds(dr_int_u64(a.x), 0, amax);
        lemma_covers_bounds(dr_int_u64(a.y), 0, amax);
        lemma_covers_bounds(dr_int_i64(a.f), -(amax + 1), amax);
        lemma_covers_bounds(dr_int_u64(b.x), 0, bmax);
        lemma_covers_bounds(dr_int_u64(b.y), 0, bmax);
        lemma_covers_bounds(dr_int_i64(b.f), -(bmax + 1), bmax);
        let xla = lo_of(dr_int_u64(a.x), 0, amax);
        let xha = hi_of(dr_int_u64(a.x), 0, amax);
        let xlb = lo_of(dr_int_u64(b.x), 0, bmax);
        let xhb = hi_of(dr_int_u64(b.x), 0, bmax);
        let yla = lo_of(dr_int_u64(a.y), 0, amax);
        let yha = hi_of(dr_int_u64(a.y), 0, amax);
        let ylb = lo_of(dr_int_u64(b.y), 0, bmax);
        let yhb = hi_of(dr_int_u64(b.y), 0, bmax);
        let fla = lo_of(dr_int_i64(a.f), -(amax + 1), amax);
        let fha = hi_of(dr_int_i64(a.f), -(amax + 1), amax);
        let flb = lo_of(dr_int_i64(b.f), -(bmax + 1), bmax);
        let fhb = hi_of(dr_int_i64(b.f), -(bmax + 1), bmax);
        lemma_div_within(px, da, xla, xha);
        lemma_div_within(py, da, yla, yha);
        lemma_div_within(pf, da, fla, fha);
        lemma_div_within(px, db, xlb, xhb);
        lemma_div_within(py, db, ylb, yhb);
        lemma_div_within(pf, db, flb, fhb);
        let g = gcd_s(a.i as nat, b.i as nat);
        lemma_gcd_divides(a.i as nat, b.i as nat);
        lemma_fundamental_div_mod(a.i as int, g as int);
        lemma_fundamental_div_mod(b.i as int, g as int);
        let ka = b.i as int / g as int;
        let kb = a.i as int / g as int;
        assert(l == kb * b.i as int);
        assert(l == a.i as int * ka && l == b.i as int * kb && ka >= 1 && kb >= 1)
            by (nonlinear_arith)
            requires
                a.i as int == g as int * kb,
                b.i as int == g as int * ka,
                l == kb * b.i as int,
                a.i >= 1,
                b.i >= 1,
        ;
        lemma_div_by_multiple(ka, a.i as int);
        lemma_div_by_multiple(kb, b.i as int);
        assert(ka * a.i as int == l && kb * b.i as int == l) by (nonlinear_arith)
            requires
                l == a.i as int * ka,
                l == b.i as int * kb,
        ;
        assert(l / a.i as int == ka);
        assert(l / b.i as int == kb);
        let tla = lo_of(dr_int_u32(a.t), 0, a.i - 1);
        let tha = hi_of(dr_int_u32(a.t), 0, a.i - 1);
        let tlb = lo_of(dr_int_u32(b.t), 0, b.i - 1);
        let thb = hi_of(dr_int_u32(b.t), 0, b.i - 1);
        assert(false) by (nonlinear_arith)
            requires
                (xha + 1) * fa - 1 < xlb * fb || (xhb + 1) * fb - 1 < xla * fa || (yha + 1) * fa
                    - 1 < ylb * fb || (yhb + 1) * fb - 1 < yla * fa || (fha + 1) * fa - 1 < flb
                    * fb || (fhb + 1) * fb - 1 < fla * fa || (tha + 1) * ka - 1 < tlb * kb || (
                thb + 1) * kb - 1 < tla * ka,
                xla * da <= px && px <= (xha + 1) * da - 1,
                xlb * db <= px && px <= (xhb + 1) * db - 1,
                yla * da <= py && py <= (yha + 1) * da - 1,
                ylb * db <= py && py <= (yhb + 1) * db - 1,
                fla * da <= pf && pf <= (fha + 1) * da - 1,
                flb * db <= pf && pf <= (fhb + 1) * db - 1,
                tla * td <= tn * (a.i as int) && tn * (a.i as int) < (tha + 1) * td,
                tlb * td <= tn * (b.i as int) && tn * (b.i as int) < (thb + 1) * td,
                da == fa * e,
                db == fb * e,
                l == a.i as int * ka,
                l == b.i as int * kb,
                e >= 1,
                ka >= 1,
                kb >= 1,
                td >= 1,
                a.i >= 1,
                b.i >= 1,
        ;
    }
}

/// One planar axis of a partial overlap: the canonical intersection
/// interval at the common zoom covers a point exactly when both operands'
/// intervals cover it.
proof fn lemma_partial_axis_u64(
    ra: DimensionRange<u64>,
    rb: DimensionRange<u64>,
    za: u16,
    zb: u16,
    zc: u16,
    p: int,
)
    requires
        za <= zc,
        zb <= zc,
        zc <= MAX_ZOOM,
        within_domain(dr_int_u64(ra), 0, pow2(za as nat) - 1),
        within_domain(dr_int_u64(rb), 0, pow2(zb as nat) - 1),
        !(frame_hi_u64(ra, za, zc) < frame_lo_u64(rb, zb, zc) || frame_hi_u64(rb, zb, zc)
            < frame_lo_u64(ra, za, zc)),
    ensures
        within_domain(
            dr_int_u64(
                spec_to_range_u64(
                    imax(frame_lo_u64(ra, za, zc), frame_lo_u64(rb, zb, zc)),
                    imin(frame_hi_u64(ra, za, zc), frame_hi_u64(rb, zb, zc)),
                    0,
                    pow2(zc as nat) - 1,
                ),
            ),
            0,
            pow2(zc as nat) - 1,
        ),
        covers(
            dr_int_u64(
                spec_to_range_u64(
                    imax(frame_lo_u64(ra, za, zc), frame_lo_u64(rb, zb, zc)),
                    imin(frame_hi_u64(ra, za, zc), frame_hi_u64(rb, zb, zc)),
                    0,
                    pow2(zc as nat) - 1,
                ),
            ),
            0,
            pow2(zc as nat) - 1,
            p / pow2((MAX_ZOOM - zc) as nat) as int,
        ) <==> (covers(
            dr_int_u64(ra),
            0,
            pow2(za as nat) - 1,
            p / pow2((MAX_ZOOM - za) as nat) as int,
        ) && covers(
            dr_int_u64(rb),
            0,
            pow2(zb as nat) - 1,
            p / pow2((MAX_ZOOM - zb) as nat) as int,
        )),
{
    let fa = pow2((zc - za) as nat) as int;
    let fb = pow2((zc - zb) as nat) as int;
    let e = pow2((MAX_ZOOM - zc) as nat) as int;
    let da = pow2((MAX_ZOOM - za) as nat) as int;
    let db = pow2((MAX_ZOOM - zb) as nat) as int;
    lemma_pow2_adds((zc - za) as nat, (MAX_ZOOM - zc) as nat);
    lemma_pow2_adds((zc - zb) as nat, (MAX_ZOOM - zc) as nat);
    lemma_pow2_adds(za as nat, (zc - za) as nat);
    lemma_pow2_adds(zb as nat, (zc - zb) as nat);
    lemma_pow2_pos((zc - za) as nat);
    lemma_pow2_pos((zc - zb) as nat);
    lemma_pow2_pos((MAX_ZOOM - zc) as nat);
    lemma_pow2_pos((MAX_ZOOM - za) as nat);
    lemma_pow2_pos((MAX_ZOOM - zb) as nat);
    lemma_pow2_pos(za as nat);
    lemma_pow2_pos(zb as nat);
    lemma_pow2_pos(zc as nat);
    lemma_pow2_strictly_increases(zc as nat, 63);
    lemma2_to64_rest();
    let amax = pow2(za as nat) - 1;
    let bmax = pow2(zb as nat) - 1;
    lemma_covers_bounds(dr_int_u64(ra), 0, amax);
    lemma_covers_bounds(dr_int_u64(rb), 0, bmax);
    let la = lo_of(dr_int_u64(ra), 0, amax);
    let ha = hi_of(dr_int_u64(ra), 0, amax);
    let lb = lo_of(dr_int_u64(rb), 0, bmax);
    let hb = hi_of(dr_int_u64(rb), 0, bmax);
    let olo = imax(la * fa, lb * fb);
    let ohi = imin((ha + 1) * fa - 1, (hb + 1) * fb - 1);
    assert(la <= ha && lb <= hb);
    assert(frame_lo_u64(ra, za, zc) == la * fa && frame_hi_u64(ra, za, zc) == (ha + 1) * fa - 1
        && frame_lo_u64(rb, zb, zc) == lb * fb && frame_hi_u64(rb, zb, zc) == (hb + 1) * fb - 1);
    assert(0 <= olo && olo <= ohi && ohi <= pow2(zc as nat) - 1 && la * fa * e == la * da && lb
        * fb * e == lb * db && (ha + 1) * fa * e == (ha + 1) * da && (hb + 1) * fb * e == (hb
        + 1) * db) by (nonlinear_arith)
        requires
            0 <= la,
            0 <= lb,
            la <= ha,
            lb <= hb,
            (ha + 1) * fa - 1 >= lb * fb,
            (hb + 1) * fb - 1 >= la * fa,
            ha <= pow2(za as nat) - 1,
            hb <= pow2(zb as nat) - 1,
            pow2(za as nat) * pow2((zc - za) as nat) == pow2(zc as nat),
            pow2(zb as nat) * pow2((zc - zb) as nat) == pow2(zc as nat),
            fa == pow2((zc - za) as nat),
            fb == pow2((zc - zb) as nat),
            da == fa * e,
            db == fb * e,
            fa >= 1,
            fb >= 1,
            e >= 1,
            olo == imax(la * fa, lb * fb),
            ohi == imin((ha + 1) * fa - 1, (hb + 1) * fb - 1),
    ;
    lemma_to_range_bounds_u64(olo, ohi, 0, pow2(zc as nat) - 1);
    lemma_covers_bounds(
        dr_int_u64(spec_to_range_u64(olo, ohi, 0, pow2(zc as nat) - 1)),
        0,
        pow2(zc as nat) - 1,
    );
    lemma_div_within(p, da, la, ha);
    lemma_div_within(p, db, lb, hb);
    lemma_div_within(p, e, olo, ohi);
    assert((olo * e <= p && p <= (ohi + 1) * e - 1) <==> (la * da <= p && p <= (ha + 1) * da - 1
        && lb * db <= p && p <= (hb + 1) * db - 1)) by (nonlinear_arith)
        requires
            olo == imax(la * fa, lb * fb),
            ohi == imin((ha + 1) * fa - 1, (hb + 1) * fb - 1),
            la * fa * e == la * da,
            lb * fb * e == lb * db,
            (ha + 1) * fa * e == (ha + 1) * da,
            (hb + 1) * fb * e == (hb + 1) * db,
            e >= 1,
    ;
}

/// One vertical axis of a partial overlap: the canonical intersection
/// interval at the common zoom covers a point exactly when both operands'
/// intervals cover it.
proof fn lemma_partial_axis_i64(
    ra: DimensionRange<i64>,
    rb: DimensionRange<i64>,
    za: u16,
    zb: u16,
    zc: u16,
    p: int,
)
    requires
        za <= zc,
        zb <= zc,
        zc <= MAX_ZOOM,
        within_domain(dr_int_i64(ra), -(pow2(za as nat) as int), pow2(za as nat) - 1),
        within_domain(dr_int_i64(rb), -(pow2(zb as nat) as int), pow2(zb as nat) - 1),
        !(frame_hi_i64(ra, za, zc) < frame_lo_i64(rb, zb, zc) || frame_hi_i64(rb, zb, zc)
            < frame_lo_i64(ra, za, zc)),
    ensures
        within_domain(
            dr_int_i64(
                spec_to_range_i64(
                    imax(frame_lo_i64(ra, za, zc), frame_lo_i64(rb, zb, zc)),
                    imin(frame_hi_i64(ra, za, zc), frame_hi_i64(rb, zb, zc)),
                    -(pow2(zc as nat) as int),
                    pow2(zc as nat) - 1,
                ),
            ),
            -(pow2(zc as nat) as int),
            pow2(zc as nat) - 1,
        ),
        covers(
            dr_int_i64(
                spec_to_range_i64(
                    imax(frame_lo_i64(ra, za, zc), frame_lo_i64(rb, zb, zc)),
                    imin(frame_hi_i64(ra, za, zc), frame_hi_i64(rb, zb, zc)),
                    -(pow2(zc as nat) as int),
                    pow2(zc as nat) - 1,
                ),
            ),
            -(pow2(zc as nat) as int),
            pow2(zc as nat) - 1,
            p / pow2((MAX_ZOOM - zc) as nat) as int,
        ) <==> (covers(
            dr_int_i64(ra),
            -(pow2(za as nat) as int),
            pow2(za as nat) - 1,
            p / pow2((MAX_ZOOM - za) as nat) as int,
        ) && covers(
            dr_int_i64(rb),
            -(pow2(zb as nat) as int),
            pow2(zb as nat) - 1,
            p / pow2((MAX_ZOOM - zb) as nat) as int,
        )),
{
    let fa = pow2((zc - za) as nat) as int;
    let fb = pow2((zc - zb) as nat) as int;
    let e = pow2((MAX_ZOOM - zc) as nat) as int;
    let da = pow2((MAX_ZOOM - za) as nat) as int;
    let db = pow2((MAX_ZOOM - zb) as nat) as int;
    lemma_pow2_adds((zc - za) as nat, (MAX_ZOOM - zc) as nat);
    lemma_pow2_adds((zc - zb) as nat, (MAX_ZOOM - zc) as nat);
    lemma_pow2_adds(za as nat, (zc - za) as nat);
    lemma_pow2_adds(zb as nat, (zc - zb) as nat);
    lemma_pow2_pos((zc - za) as nat);
    lemma_pow2_pos((zc - zb) as nat);
    lemma_pow2_pos((MAX_ZOOM - zc) as nat);
    lemma_pow2_pos((MAX_ZOOM - za) as nat);
    lemma_pow2_pos((MAX_ZOOM - zb) as nat);
    lemma_pow2_pos(za as nat);
    lemma_pow2_pos(zb as nat);
    lemma_pow2_pos(zc as nat);
    lemma_pow2_strictly_increases(zc as nat, 63);
    lemma2_to64_rest();
    let amax = pow2(za as nat) - 1;
    let bmax = pow2(zb as nat) - 1;
    lemma_covers_bounds(dr_int_i64(ra), -(amax + 1), amax);
    lemma_covers_bounds(dr_int_i64(rb), -(bmax + 1), bmax);
    let la = lo_of(dr_int_i64(ra), -(amax + 1), amax);
    let ha = hi_of(dr_int_i64(ra), -(amax + 1), amax);
    let lb = lo_of(dr_int_i64(rb), -(bmax + 1), bmax);
    let hb = hi_of(dr_int_i64(rb), -(bmax + 1), bmax);
    let olo = imax(la * fa, lb * fb);
    let ohi = imin((ha + 1) * fa - 1, (hb + 1) * fb - 1);
    assert(la <= ha && lb <= hb);
    assert(frame_lo_i64(ra, za, zc) == la * fa && frame_hi_i64(ra, za, zc) == (ha + 1) * fa - 1
        && frame_lo_i64(rb, zb, zc) == lb * fb && frame_hi_i64(rb, zb, zc) == (hb + 1) * fb - 1);
    assert(-(pow2(zc as nat) as int) <= olo && olo <= ohi && ohi <= pow2(zc as nat) - 1 && la
        * fa * e == la * da && lb * fb * e == lb * db && (ha + 1) * fa * e == (ha + 1) * da && (
    hb + 1) * fb * e == (hb + 1) * db) by (nonlinear_arith)
        requires
            -(pow2(za as nat) as int) <= la,
            -(pow2(zb as nat) as int) <= lb,
            la <= ha,
            lb <= hb,
            (ha + 1) * fa - 1 >= lb * fb,
            (hb + 1) * fb - 1 >= la * fa,
            ha <= pow2(za as nat) - 1,
            hb <= pow2(zb as nat) - 1,
            pow2(za as nat) * pow2((zc - za) as nat) == pow2(zc as nat),
            pow2(zb as nat) * pow2((zc - zb) as nat) == pow2(zc as nat),
            fa == pow2((zc - za) as nat),
            fb == pow2((zc - zb) as nat),
            da == fa * e,
            db == fb * e,
            fa >= 1,
            fb >= 1,
            e >= 1,
            olo == imax(la * fa, lb * fb),
            ohi == imin((ha + 1) * fa - 1, (hb + 1) * fb - 1),
    ;
    lemma_to_range_bounds_i64(olo, ohi, -(pow2(zc as nat) as int), pow2(zc as nat) - 1);
    lemma_covers_bounds(
        dr_int_i64(spec_to_range_i64(olo, ohi, -(pow2(zc as nat) as int), pow2(zc as nat) - 1)),
        -(pow2(zc as nat) as int),
        pow2(zc as nat) - 1,
    );
    lemma_div_within(p, da, la, ha);
    lemma_div_within(p, db, lb, hb);
    lemma_div_within(p, e, olo, ohi);
    assert((olo * e <= p && p <= (ohi + 1) * e - 1) <==> (la * da <= p && p <= (ha + 1) * da - 1
        && lb * db <= p && p <= (hb + 1) * db - 1)) by (nonlinear_arith)
        requires
            olo == imax(la * fa, lb * fb),
            ohi == imin((ha + 1) * fa - 1, (hb + 1) * fb - 1),
            la * fa * e == la * da,
            lb * fb * e == lb * db,
            (ha + 1) * fa * e == (ha + 1) * da,
            (hb + 1) * fb * e == (hb + 1) * db,
            e >= 1,
    ;
}

/// Classification is exact for partial overlap: the overlap identifier
/// covers a point exactly when both operands cover it.
pub proof fn lemma_classify_partial_covers(
    a: SpaceTimeId,
    b: SpaceTimeId,
    o: SpaceTimeId,
    px: int,
    py: int,
    pf: int,
    tn: int,
    td: int,
)
    requires
        a.wf(),
        b.wf(),
        lcm_s(a.i as nat, b.i as nat) <= u32::MAX as nat,
        spec_classify(a, b) == Containment::Partial(o),
        td >= 1,
    ensures
        o.wf(),
        covers_point(o, px, py, pf, tn, td) <==> (covers_point(a, px, py, pf, tn, td)
            && covers_point(b, px, py, pf, tn, td)),
{
    let zc = if a.z >= b.z {
        a.z
    } else {
        b.z
    };
    let l = lcm_s(a.i as nat, b.i as nat) as int;
    lemma_partial_axis_u64(a.x, b.x, a.z, b.z, zc, px);
    lemma_partial_axis_u64(a.y, b.y, a.z, b.z, zc, py);
    lemma_partial_axis_i64(a.f, b.f, a.z, b.z, zc, pf);
    let g = gcd_s(a.i as nat, b.i as nat);
    lemma_gcd_divides(a.i as nat, b.i as nat);
    lemma_fundamental_div_mod(a.i as int, g as int);
    lemma_fundamental_div_mod(b.i as int, g as int);
    let ka = b.i as int / g as int;
    let kb = a.i as int / g as int;
    assert(l == kb * b.i as int);
    assert(l == a.i as int * ka && l == b.i as int * kb && ka >= 1 && kb >= 1)
        by (nonlinear_arith)
        requires
            a.i as int == g as int * kb,
            b.i as int == g as int * ka,
            l == kb * b.i as int,
            a.i >= 1,
            b.i >= 1,
    ;
    lemma_div_by_multiple(ka, a.i as int);
    lemma_div_by_multiple(kb, b.i as int);
    assert(ka * a.i as int == l && kb * b.i as int == l) by (nonlinear_arith)
        requires
            l == a.i as int * ka,
            l == b.i as int * kb,
    ;
    assert(l / a.i as int == ka);
    assert(l / b.i as int == kb);
    let tla = lo_of(dr_int_u32(a.t), 0, a.i - 1);
    let tha = hi_of(dr_int_u32(a.t), 0, a.i - 1);
    let tlb = lo_of(dr_int_u32(b.t), 0, b.i - 1);
    let thb = hi_of(dr_int_u32(b.t), 0, b.i - 1);
    let tol = imax(tla * ka, tlb * kb);
    let toh = imin((tha + 1) * ka - 1, (thb + 1) * kb - 1);
    assert(0 <= tol && toh <= l - 1 && l >= 1) by (nonlinear_arith)
        requires
            0 <= tla,
            0 <= tlb,
            tha <= a.i as int - 1,
            thb <= b.i as int - 1,
            l == a.i as int * ka,
            l == b.i as int * kb,
            ka >= 1,
            kb >= 1,
            a.i >= 1,
            b.i >= 1,
            tol == imax(tla * ka, tlb * kb),
            toh == imin((tha + 1) * ka - 1, (thb + 1) * kb - 1),
    ;
    assert(frame_lo_t(a.t, a.i, l) == tla * ka && frame_hi_t(a.t, a.i, l) == (tha + 1) * ka - 1
        && frame_lo_t(b.t, b.i, l) == tlb * kb && frame_hi_t(b.t, b.i, l) == (thb + 1) * kb - 1);
    assert(tla <= tha && tlb <= thb);
    assert(tol <= toh) by (nonlinear_arith)
        requires
            tol == imax(tla * ka, tlb * kb),
            toh == imin((tha + 1) * ka - 1, (thb + 1) * kb - 1),
            tla <= tha,
            tlb <= thb,
            (tha + 1) * ka - 1 >= tlb * kb,
            (thb + 1) * kb - 1 >= tla * ka,
            ka >= 1,
            kb >= 1,
    ;
    lemma_to_range_bounds_u32(tol, toh, 0, l - 1);
    assert(o.i as int == l);
    assert(tol * td <= tn * l <==> (tla * td <= tn * (a.i as int) && tlb * td <= tn * (
    b.i as int))) by (nonlinear_arith)
        requires
            tol == imax(tla * ka, tlb * kb),
            l == a.i as int * ka,
            l == b.i as int * kb,
            ka >= 1,
            kb >= 1,
            td >= 1,
    ;
    assert(tn * l < (toh + 1) * td <==> (tn * (a.i as int) < (tha + 1) * td && tn * (b.i as int)
        < (thb + 1) * td)) by (nonlinear_arith)
        requires
            toh == imin((tha + 1) * ka - 1, (thb + 1) * kb - 1),
            l == a.i as int * ka,
            l == b.i as int * kb,
            ka >= 1,
            kb >= 1,
            td >= 1,
    ;
}

/// An identifier fully contains itself: classifying an identifier against an
/// equal one yields `Full`.
pub proof fn lemma_classify_reflexive(a: SpaceTimeId)
    requires
        a.wf(),
    ensures
        spec_classify(a, a) == Containment::Full,
{
    lemma_pow2_pos(a.z as nat);
    lemma2_to64();
    assert(gcd_s(a.i as nat, a.i as nat) == a.i as nat) by {
        lemma_mod_self_0(a.i as int);
        assert(gcd_s(a.i as nat, a.i as nat) == gcd_s(a.i as nat, 0nat));
    }
    assert(lcm_s(a.i as nat, a.i as nat) == a.i as nat) by {
        vstd::arithmetic::div_mod::lemma_div_by_self(a.i as int);
    }
    let l = lcm_s(a.i as nat, a.i as nat) as int;
    assert(l / a.i as int == 1) by {
        vstd::arithmetic::div_mod::lemma_div_by_self(a.i as int);
    }
    let pmin = 0;
    let pmax = pow2(a.z as nat) - 1;
    let fmin = -(pow2(a.z as nat) as int);
    assert(lo_of(dr_int_u64(a.x), pmin, pmax) <= hi_of(dr_int_u64(a.x), pmin, pmax));
    assert(lo_of(dr_int_u64(a.y), pmin, pmax) <= hi_of(dr_int_u64(a.y), pmin, pmax));
    assert(lo_of(dr_int_i64(a.f), fmin, pmax) <= hi_of(dr_int_i64(a.f), fmin, pmax));
    assert(lo_of(dr_int_u32(a.t), 0, a.i - 1) <= hi_of(dr_int_u32(a.t), 0, a.i - 1));
    assert((a.z - a.z) as nat == 0);
    assert(pow2(0) == 1);
    assert(frame_lo_u64(a.x, a.z, a.z) == lo_of(dr_int_u64(a.x), pmin, pmax) * pow2(0));
    assert(frame_lo_u64(a.x, a.z, a.z) == lo_of(dr_int_u64(a.x), pmin, pmax));
    assert(frame_hi_u64(a.x, a.z, a.z) == hi_of(dr_int_u64(a.x), pmin, pmax));
    assert(frame_lo_u64(a.y, a.z, a.z) == lo_of(dr_int_u64(a.y), pmin, pmax));
    assert(frame_hi_u64(a.y, a.z, a.z) == hi_of(dr_int_u64(a.y), pmin, pmax));
    assert(frame_lo_i64(a.f, a.z, a.z) == lo_of(dr_int_i64(a.f), fmin, pmax));
    assert(frame_hi_i64(a.f, a.z, a.z) == hi_of(dr_int_i64(a.f), fmin, pmax));
    assert(frame_lo_t(a.t, a.i, l) == lo_of(dr_int_u32(a.t), 0, a.i - 1));
    assert(frame_hi_t(a.t, a.i, l) == hi_of(dr_int_u32(a.t), 0, a.i - 1));
}

} // verus!
