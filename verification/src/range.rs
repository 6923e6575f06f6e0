use vstd::prelude::*;

use crate::range::DimensionRange as DR;

verus! {

/// A closed interval over one axis of a tile identifier.
///
/// `Single(v)` is exactly the coordinate `v`; `LimitRange(s, e)` is the
/// inclusive range `[s, e]`; `AfterUnLimitRange(s)` runs from `s` up to the
/// axis maximum; `BeforeUnLimitRange(e)` runs from the axis minimum up to
/// `e`; `Any` is the whole axis domain at the current resolution.
#[derive(Clone, Copy, Debug, PartialEq, Eq, Structural)]
pub enum DimensionRange<T> {
    Single(T),
    LimitRange(T, T),
    AfterUnLimitRange(T),
    BeforeUnLimitRange(T),
    Any,
}

/// Signalled by an adjacency merge whose operands overlap instead of being
/// disjoint: a caller-side precondition violation, distinct from "no merge
/// possible", and treated by every caller as "do not merge".
#[derive(Clone, Copy, Debug, PartialEq, Eq, Structural)]
pub enum MergeError {
    AmbiguousOverlap,
}

/// Whether the interval is a single coordinate.
pub open spec fn is_single<T>(r: DimensionRange<T>) -> bool {
    match r {
        DimensionRange::Single(_) => true,
        _ => false,
    }
}

/// `v` lies in the set of coordinates named by `r`, over the axis domain
/// `[min, max]`.
pub open spec fn covers(r: DimensionRange<int>, min: int, max: int, v: int) -> bool {
    match r {
        DimensionRange::Single(p) => v == p,
        DimensionRange::LimitRange(s, e) => s <= v && v <= e,
        DimensionRange::AfterUnLimitRange(s) => s <= v && v <= max,
        DimensionRange::BeforeUnLimitRange(e) => min <= v && v <= e,
        DimensionRange::Any => min <= v && v <= max,
    }
}

/// The interval's endpoints are ordered and lie inside the axis domain
/// `[min, max]`.
pub open spec fn within_domain(r: DimensionRange<int>, min: int, max: int) -> bool {
    match r {
        DimensionRange::Single(p) => min <= p && p <= max,
        DimensionRange::LimitRange(s, e) => min <= s && s <= e && e <= max,
        DimensionRange::AfterUnLimitRange(s) => min <= s && s <= max,
        DimensionRange::BeforeUnLimitRange(e) => min <= e && e <= max,
        DimensionRange::Any => true,
    }
}

/// The least coordinate of `r` over the axis domain `[min, max]`.
pub open spec fn lo_of(r: DimensionRange<int>, min: int, max: int) -> int {
    match r {
        DimensionRange::Single(p) => p,
        DimensionRange::LimitRange(s, _) => s,
        DimensionRange::AfterUnLimitRange(s) => s,
        DimensionRange::BeforeUnLimitRange(_) => min,
        DimensionRange::Any => min,
    }
}

/// The greatest coordinate of `r` over the axis domain `[min, max]`.
pub open spec fn hi_of(r: DimensionRange<int>, min: int, max: int) -> int {
    match r {
        DimensionRange::Single(p) => p,
        DimensionRange::LimitRange(_, e) => e,
        DimensionRange::AfterUnLimitRange(_) => max,
        DimensionRange::BeforeUnLimitRange(e) => e,
        DimensionRange::Any => max,
    }
}

/// Within its domain, an interval names exactly the coordinates between its
/// two bounds.
pub proof fn lemma_covers_bounds(r: DimensionRange<int>, min: int, max: int)
    requires
        within_domain(r, min, max),
        min <= max,
    ensures
        forall|v: int| covers(r, min, max, v) <==> lo_of(r, min, max) <= v && v <= hi_of(
            r,
            min,
            max,
        ),
{
}

/// The adjacency-merge relation on intervals: two intervals combine into one
/// exactly when they touch with no gap and no overlap and their union is
/// again one of the five variants. An unbounded operand beside a different
/// interval, or two open intervals of the same direction, signal
/// `AmbiguousOverlap`; every other non-adjacent pair merges to nothing.
pub open spec fn spec_try_merge(a: DimensionRange<int>, b: DimensionRange<int>) -> Result<
    Option<DimensionRange<int>>,
    MergeError,
> {
    match (a, b) {
        (DR::Single(v), DR::Single(w)) => if v + 1 == w {
            Ok(Some(DR::LimitRange(v, w)))
        } else if w + 1 == v {
            Ok(Some(DR::LimitRange(w, v)))
        } else {
            Ok(None)
        },
        (DR::Single(v), DR::LimitRange(s, e)) => if v + 1 == s {
            Ok(Some(DR::LimitRange(v, e)))
        } else if e + 1 == v {
            Ok(Some(DR::LimitRange(s, v)))
        } else {
            Ok(None)
        },
        (DR::Single(v), DR::AfterUnLimitRange(s)) => if v + 1 == s {
            Ok(Some(DR::AfterUnLimitRange(v)))
        } else {
            Ok(None)
        },
        (DR::Single(v), DR::BeforeUnLimitRange(e)) => if e + 1 == v {
            Ok(Some(DR::BeforeUnLimitRange(v)))
        } else {
            Ok(None)
        },
        (DR::LimitRange(s, e), DR::Single(v)) => if v + 1 == s {
            Ok(Some(DR::LimitRange(v, e)))
        } else if e + 1 == v {
            Ok(Some(DR::LimitRange(s, v)))
        } else {
            Ok(None)
        },
        (DR::LimitRange(vs, ve), DR::LimitRange(s, e)) => if ve + 1 == s {
            Ok(Some(DR::LimitRange(vs, e)))
        } else if e + 1 == vs {
            Ok(Some(DR::LimitRange(s, ve)))
        } else {
            Ok(None)
        },
        (DR::LimitRange(vs, ve), DR::AfterUnLimitRange(s)) => if ve + 1 == s {
            Ok(Some(DR::AfterUnLimitRange(vs)))
        } else {
            Ok(None)
        },
        (DR::LimitRange(vs, ve), DR::BeforeUnLimitRange(e)) => if e + 1 == vs {
            Ok(Some(DR::BeforeUnLimitRange(ve)))
        } else {
            Ok(None)
        },
        (DR::AfterUnLimitRange(s), DR::Single(v)) => if v + 1 == s {
            Ok(Some(DR::AfterUnLimitRange(v)))
        } else {
            Ok(None)
        },
        (DR::AfterUnLimitRange(s), DR::LimitRange(vs, ve)) => if ve + 1 == s {
            Ok(Some(DR::AfterUnLimitRange(vs)))
        } else {
            Ok(None)
        },
        (DR::AfterUnLimitRange(s), DR::BeforeUnLimitRange(e)) => if e + 1 == s {
            Ok(Some(DR::Any))
        } else {
            Ok(None)
        },
        (DR::BeforeUnLimitRange(e), DR::Single(v)) => if e + 1 == v {
            Ok(Some(DR::BeforeUnLimitRange(v)))
        } else {
            Ok(None)
        },
        (DR::BeforeUnLimitRange(e), DR::LimitRange(vs, ve)) => if e + 1 == vs {
            Ok(Some(DR::BeforeUnLimitRange(ve)))
        } else {
            Ok(None)
        },
        (DR::BeforeUnLimitRange(e), DR::AfterUnLimitRange(s)) => if e + 1 == s {
            Ok(Some(DR::Any))
        } else {
            Ok(None)
        },
        (DR::Any, DR::Any) => Ok(None),
        (DR::AfterUnLimitRange(_), DR::AfterUnLimitRange(_)) => Err(MergeError::AmbiguousOverlap),
        (DR::BeforeUnLimitRange(_), DR::BeforeUnLimitRange(_)) => Err(MergeError::AmbiguousOverlap),
        (DR::Any, _) => Err(MergeError::AmbiguousOverlap),
        (_, DR::Any) => Err(MergeError::AmbiguousOverlap),
    }
}

/// A merged interval names exactly the union of the two operands' coordinate
/// sets, and stays inside the axis domain.
pub proof fn lemma_merge_covers_union(
    a: DimensionRange<int>,
    b: DimensionRange<int>,
    m: DimensionRange<int>,
    min: int,
    max: int,
)
    requires
        within_domain(a, min, max),
        within_domain(b, min, max),
        min <= max,
        spec_try_merge(a, b) == Ok::<Option<DimensionRange<int>>, MergeError>(Some(m)),
    ensures
        within_domain(m, min, max),
        forall|v: int| covers(m, min, max, v) <==> covers(a, min, max, v) || covers(
            b,
            min,
            max,
            v,
        ),
{
}

/// An integer interval brought back onto a `u64` axis.
pub open spec fn dr_u64_of(r: DimensionRange<int>) -> DimensionRange<u64> {
    match r {
        DimensionRange::Single(v) => DimensionRange::Single(v as u64),
        DimensionRange::LimitRange(s, e) => DimensionRange::LimitRange(s as u64, e as u64),
        DimensionRange::AfterUnLimitRange(s) => DimensionRange::AfterUnLimitRange(s as u64),
        DimensionRange::BeforeUnLimitRange(e) => DimensionRange::BeforeUnLimitRange(e as u64),
        DimensionRange::Any => DimensionRange::Any,
    }
}

/// An integer interval brought back onto an `i64` axis.
pub open spec fn dr_i64_of(r: DimensionRange<int>) -> DimensionRange<i64> {
    match r {
        DimensionRange::Single(v) => DimensionRange::Single(v as i64),
        DimensionRange::LimitRange(s, e) => DimensionRange::LimitRange(s as i64, e as i64),
        DimensionRange::AfterUnLimitRange(s) => DimensionRange::AfterUnLimitRange(s as i64),
        DimensionRange::BeforeUnLimitRange(e) => DimensionRange::BeforeUnLimitRange(e as i64),
        DimensionRange::Any => DimensionRange::Any,
    }
}

/// An integer interval brought back onto a `u32` axis.
pub open spec fn dr_u32_of(r: DimensionRange<int>) -> DimensionRange<u32> {
    match r {
        DimensionRange::Single(v) => DimensionRange::Single(v as u32),
        DimensionRange::LimitRange(s, e) => DimensionRange::LimitRange(s as u32, e as u32),
        DimensionRange::AfterUnLimitRange(s) => DimensionRange::AfterUnLimitRange(s as u32),
        DimensionRange::BeforeUnLimitRange(e) => DimensionRange::BeforeUnLimitRange(e as u32),
        DimensionRange::Any => DimensionRange::Any,
    }
}

/// `r` as an interval over the mathematical integers.
pub open spec fn dr_int_u64(r: DimensionRange<u64>) -> DimensionRange<int> {
    match r {
        DimensionRange::Single(v) => DimensionRange::Single(v as int),
        DimensionRange::LimitRange(s, e) => DimensionRange::LimitRange(s as int, e as int),
        DimensionRange::AfterUnLimitRange(s) => DimensionRange::AfterUnLimitRange(s as int),
        DimensionRange::BeforeUnLimitRange(e) => DimensionRange::BeforeUnLimitRange(e as int),
        DimensionRange::Any => DimensionRange::Any,
    }
}

/// `r` as an interval over the mathematical integers.
pub open spec fn dr_int_i64(r: DimensionRange<i64>) -> DimensionRange<int> {
    match r {
        DimensionRange::Single(v) => DimensionRange::Single(v as int),
        DimensionRange::LimitRange(s, e) => DimensionRange::LimitRange(s as int, e as int),
        DimensionRange::AfterUnLimitRange(s) => DimensionRange::AfterUnLimitRange(s as int),
        DimensionRange::BeforeUnLimitRange(e) => DimensionRange::BeforeUnLimitRange(e as int),
        DimensionRange::Any => DimensionRange::Any,
    }
}

/// `r` as an interval over the mathematical integers.
pub open spec fn dr_int_u32(r: DimensionRange<u32>) -> DimensionRange<int> {
    match r {
        DimensionRange::Single(v) => DimensionRange::Single(v as int),
        DimensionRange::LimitRange(s, e) => DimensionRange::LimitRange(s as int, e as int),
        DimensionRange::AfterUnLimitRange(s) => DimensionRange::AfterUnLimitRange(s as int),
        DimensionRange::BeforeUnLimitRange(e) => DimensionRange::BeforeUnLimitRange(e as int),
        DimensionRange::Any => DimensionRange::Any,
    }
}

/// A merge outcome over `u64`, lifted to the mathematical integers.
pub open spec fn lift_merge_u64(r: Result<Option<DimensionRange<u64>>, MergeError>) -> Result<
    Option<DimensionRange<int>>,
    MergeError,
> {
    match r {
        Ok(Some(m)) => Ok(Some(dr_int_u64(m))),
        Ok(None) => Ok(None),
        Err(e) => Err(e),
    }
}

/// A merge outcome over `i64`, lifted to the mathematical integers.
pub open spec fn lift_merge_i64(r: Result<Option<DimensionRange<i64>>, MergeError>) -> Result<
    Option<DimensionRange<int>>,
    MergeError,
> {
    match r {
        Ok(Some(m)) => Ok(Some(dr_int_i64(m))),
        Ok(None) => Ok(None),
        Err(e) => Err(e),
    }
}

/// A merge outcome over `u32`, lifted to the mathematical integers.
pub open spec fn lift_merge_u32(r: Result<Option<DimensionRange<u32>>, MergeError>) -> Result<
    Option<DimensionRange<int>>,
    MergeError,
> {
    match r {
        Ok(Some(m)) => Ok(Some(dr_int_u32(m))),
        Ok(None) => Ok(None),
        Err(e) => Err(e),
    }
}

/// Adjacency merge over a `u64` axis, following `spec_try_merge` exactly.
pub fn try_merge_u64(a: DimensionRange<u64>, b: DimensionRange<u64>) -> (r: Result<
    Option<DimensionRange<u64>>,
    MergeError,
>)
    ensures
        lift_merge_u64(r) == spec_try_merge(dr_int_u64(a), dr_int_u64(b)),
{
    match (a, b) {
        (DR::Single(v), DR::Single(w)) => if v != u64::MAX && v + 1 == w {
            Ok(Some(DR::LimitRange(v, w)))
        } else if w != u64::MAX && w + 1 == v {
            Ok(Some(DR::LimitRange(w, v)))
        } else {
            Ok(None)
        },
        (DR::Single(v), DR::LimitRange(s, e)) => if v != u64::MAX && v + 1 == s {
            Ok(Some(DR::LimitRange(v, e)))
        } else if e != u64::MAX && e + 1 == v {
            Ok(Some(DR::LimitRange(s, v)))
        } else {
            Ok(None)
        },
        (DR::Single(v), DR::AfterUnLimitRange(s)) => if v != u64::MAX && v + 1 == s {
            Ok(Some(DR::AfterUnLimitRange(v)))
        } else {
            Ok(None)
        },
        (DR::Single(v), DR::BeforeUnLimitRange(e)) => if e != u64::MAX && e + 1 == v {
            Ok(Some(DR::BeforeUnLimitRange(v)))
        } else {
            Ok(None)
        },
        (DR::LimitRange(s, e), DR::Single(v)) => if v != u64::MAX && v + 1 == s {
            Ok(Some(DR::LimitRange(v, e)))
        } else if e != u64::MAX && e + 1 == v {
            Ok(Some(DR::LimitRange(s, v)))
        } else {
            Ok(None)
        },
        (DR::LimitRange(vs, ve), DR::LimitRange(s, e)) => if ve != u64::MAX && ve + 1 == s {
            Ok(Some(DR::LimitRange(vs, e)))
        } else if e != u64::MAX && e + 1 == vs {
            Ok(Some(DR::LimitRange(s, ve)))
        } else {
            Ok(None)
        },
        (DR::LimitRange(vs, ve), DR::AfterUnLimitRange(s)) => if ve != u64::MAX && ve + 1 == s {
            Ok(Some(DR::AfterUnLimitRange(vs)))
        } else {
            Ok(None)
        },
        (DR::LimitRange(vs, ve), DR::BeforeUnLimitRange(e)) => if e != u64::MAX && e + 1 == vs {
            Ok(Some(DR::BeforeUnLimitRange(ve)))
        } else {
            Ok(None)
        },
        (DR::AfterUnLimitRange(s), DR::Single(v)) => if v != u64::MAX && v + 1 == s {
            Ok(Some(DR::AfterUnLimitRange(v)))
        } else {
            Ok(None)
        },
        (DR::AfterUnLimitRange(s), DR::LimitRange(vs, ve)) => if ve != u64::MAX && ve + 1 == s {
            Ok(Some(DR::AfterUnLimitRange(vs)))
        } else {
            Ok(None)
        },
        (DR::AfterUnLimitRange(s), DR::BeforeUnLimitRange(e)) => if e != u64::MAX && e + 1 == s {
            Ok(Some(DR::Any))
        } else {
            Ok(None)
        },
        (DR::BeforeUnLimitRange(e), DR::Single(v)) => if e != u64::MAX && e + 1 == v {
            Ok(Some(DR::BeforeUnLimitRange(v)))
        } else {
            Ok(None)
        },
        (DR::BeforeUnLimitRange(e), DR::LimitRange(vs, ve)) => if e != u64::MAX && e + 1 == vs {
            Ok(Some(DR::BeforeUnLimitRange(ve)))
        } else {
            Ok(None)
        },
        (DR::BeforeUnLimitRange(e), DR::AfterUnLimitRange(s)) => if e != u64::MAX && e + 1 == s {
            Ok(Some(DR::Any))
        } else {
            Ok(None)
        },
        (DR::Any, DR::Any) => Ok(None),
        (DR::AfterUnLimitRange(_), DR::AfterUnLimitRange(_)) => Err(MergeError::AmbiguousOverlap),
        (DR::BeforeUnLimitRange(_), DR::BeforeUnLimitRange(_)) => Err(MergeError::AmbiguousOverlap),
        (DR::Any, _) => Err(MergeError::AmbiguousOverlap),
        (_, DR::Any) => Err(MergeError::AmbiguousOverlap),
    }
}

/// Adjacency merge over an `i64` axis, following `spec_try_merge` exactly.
pub fn try_merge_i64(a: DimensionRange<i64>, b: DimensionRange<i64>) -> (r: Result<
    Option<DimensionRange<i64>>,
    MergeError,
>)
    ensures
        lift_merge_i64(r) == spec_try_merge(dr_int_i64(a), dr_int_i64(b)),
{
    match (a, b) {
        (DR::Single(v), DR::Single(w)) => if v != i64::MAX && v + 1 == w {
            Ok(Some(DR::LimitRange(v, w)))
        } else if w != i64::MAX && w + 1 == v {
            Ok(Some(DR::LimitRange(w, v)))
        } else {
            Ok(None)
        },
        (DR::Single(v), DR::LimitRange(s, e)) => if v != i64::MAX && v + 1 == s {
            Ok(Some(DR::LimitRange(v, e)))
        } else if e != i64::MAX && e + 1 == v {
            Ok(Some(DR::LimitRange(s, v)))
        } else {
            Ok(None)
        },
        (DR::Single(v), DR::AfterUnLimitRange(s)) => if v != i64::MAX && v + 1 == s {
            Ok(Some(DR::AfterUnLimitRange(v)))
        } else {
            Ok(None)
        },
        (DR::Single(v), DR::BeforeUnLimitRange(e)) => if e != i64::MAX && e + 1 == v {
            Ok(Some(DR::BeforeUnLimitRange(v)))
        } else {
            Ok(None)
        },
        (DR::LimitRange(s, e), DR::Single(v)) => if v != i64::MAX && v + 1 == s {
            Ok(Some(DR::LimitRange(v, e)))
        } else if e != i64::MAX && e + 1 == v {
            Ok(Some(DR::LimitRange(s, v)))
        } else {
            Ok(None)
        },
        (DR::LimitRange(vs, ve), DR::LimitRange(s, e)) => if ve != i64::MAX && ve + 1 == s {
            Ok(Some(DR::LimitRange(vs, e)))
        } else if e != i64::MAX && e + 1 == vs {
            Ok(Some(DR::LimitRange(s, ve)))
        } else {
            Ok(None)
        },
        (DR::LimitRange(vs, ve), DR::AfterUnLimitRange(s)) => if ve != i64::MAX && ve + 1 == s {
            Ok(Some(DR::AfterUnLimitRange(vs)))
        } else {
            Ok(None)
        },
        (DR::LimitRange(vs, ve), DR::BeforeUnLimitRange(e)) => if e != i64::MAX && e + 1 == vs {
            Ok(Some(DR::BeforeUnLimitRange(ve)))
        } else {
            Ok(None)
        },
        (DR::AfterUnLimitRange(s), DR::Single(v)) => if v != i64::MAX && v + 1 == s {
            Ok(Some(DR::AfterUnLimitRange(v)))
        } else {
            Ok(None)
        },
        (DR::AfterUnLimitRange(s), DR::LimitRange(vs, ve)) => if ve != i64::MAX && ve + 1 == s {
            Ok(Some(DR::AfterUnLimitRange(vs)))
        } else {
            Ok(None)
        },
        (DR::AfterUnLimitRange(s), DR::BeforeUnLimitRange(e)) => if e != i64::MAX && e + 1 == s {
            Ok(Some(DR::Any))
        } else {
            Ok(None)
        },
        (DR::BeforeUnLimitRange(e), DR::Single(v)) => if e != i64::MAX && e + 1 == v {
            Ok(Some(DR::BeforeUnLimitRange(v)))
        } else {
            Ok(None)
        },
        (DR::BeforeUnLimitRange(e), DR::LimitRange(vs, ve)) => if e != i64::MAX && e + 1 == vs {
            Ok(Some(DR::BeforeUnLimitRange(ve)))
        } else {
            Ok(None)
        },
        (DR::BeforeUnLimitRange(e), DR::AfterUnLimitRange(s)) => if e != i64::MAX && e + 1 == s {
            Ok(Some(DR::Any))
        } else {
            Ok(None)
        },
        (DR::Any, DR::Any) => Ok(None),
        (DR::AfterUnLimitRange(_), DR::AfterUnLimitRange(_)) => Err(MergeError::AmbiguousOverlap),
        (DR::BeforeUnLimitRange(_), DR::BeforeUnLimitRange(_)) => Err(MergeError::AmbiguousOverlap),
        (DR::Any, _) => Err(MergeError::AmbiguousOverlap),
        (_, DR::Any) => Err(MergeError::AmbiguousOverlap),
    }
}

/// Adjacency merge over a `u32` axis, following `spec_try_merge` exactly.
pub fn try_merge_u32(a: DimensionRange<u32>, b: DimensionRange<u32>) -> (r: Result<
    Option<DimensionRange<u32>>,
    MergeError,
>)
    ensures
        lift_merge_u32(r) == spec_try_merge(dr_int_u32(a), dr_int_u32(b)),
{
    match (a, b) {
        (DR::Single(v), DR::Single(w)) => if v != u32::MAX && v + 1 == w {
            Ok(Some(DR::LimitRange(v, w)))
        } else if w != u32::MAX && w + 1 == v {
            Ok(Some(DR::LimitRange(w, v)))
        } else {
            Ok(None)
        },
        (DR::Single(v), DR::LimitRange(s, e)) => if v != u32::MAX && v + 1 == s {
            Ok(Some(DR::LimitRange(v, e)))
        } else if e != u32::MAX && e + 1 == v {
            Ok(Some(DR::LimitRange(s, v)))
        } else {
            Ok(None)
        },
        (DR::Single(v), DR::AfterUnLimitRange(s)) => if v != u32::MAX && v + 1 == s {
            Ok(Some(DR::AfterUnLimitRange(v)))
        } else {
            Ok(None)
        },
        (DR::Single(v), DR::BeforeUnLimitRange(e)) => if e != u32::MAX && e + 1 == v {
            Ok(Some(DR::BeforeUnLimitRange(v)))
        } else {
            Ok(None)
        },
        (DR::LimitRange(s, e), DR::Single(v)) => if v != u32::MAX && v + 1 == s {
            Ok(Some(DR::LimitRange(v, e)))
        } else if e != u32::MAX && e + 1 == v {
            Ok(Some(DR::LimitRange(s, v)))
        } else {
            Ok(None)
        },
        (DR::LimitRange(vs, ve), DR::LimitRange(s, e)) => if ve != u32::MAX && ve + 1 == s {
            Ok(Some(DR::LimitRange(vs, e)))
        } else if e != u32::MAX && e + 1 == vs {
            Ok(Some(DR::LimitRange(s, ve)))
        } else {
            Ok(None)
        },
        (DR::LimitRange(vs, ve), DR::AfterUnLimitRange(s)) => if ve != u32::MAX && ve + 1 == s {
            Ok(Some(DR::AfterUnLimitRange(vs)))
        } else {
            Ok(None)
        },
        (DR::LimitRange(vs, ve), DR::BeforeUnLimitRange(e)) => if e != u32::MAX && e + 1 == vs {
            Ok(Some(DR::BeforeUnLimitRange(ve)))
        } else {
            Ok(None)
        },
        (DR::AfterUnLimitRange(s), DR::Single(v)) => if v != u32::MAX && v + 1 == s {
            Ok(Some(DR::AfterUnLimitRange(v)))
        } else {
            Ok(None)
        },
        (DR::AfterUnLimitRange(s), DR::LimitRange(vs, ve)) => if ve != u32::MAX && ve + 1 == s {
            Ok(Some(DR::AfterUnLimitRange(vs)))
        } else {
            Ok(None)
        },
        (DR::AfterUnLimitRange(s), DR::BeforeUnLimitRange(e)) => if e != u32::MAX && e + 1 == s {
            Ok(Some(DR::Any))
        } else {
            Ok(None)
        },
        (DR::BeforeUnLimitRange(e), DR::Single(v)) => if e != u32::MAX && e + 1 == v {
            Ok(Some(DR::BeforeUnLimitRange(v)))
        } else {
            Ok(None)
        },
        (DR::BeforeUnLimitRange(e), DR::LimitRange(vs, ve)) => if e != u32::MAX && e + 1 == vs {
            Ok(Some(DR::BeforeUnLimitRange(ve)))
        } else {
            Ok(None)
        },
        (DR::BeforeUnLimitRange(e), DR::AfterUnLimitRange(s)) => if e != u32::MAX && e + 1 == s {
            Ok(Some(DR::Any))
        } else {
            Ok(None)
        },
        (DR::Any, DR::Any) => Ok(None),
        (DR::AfterUnLimitRange(_), DR::AfterUnLimitRange(_)) => Err(MergeError::AmbiguousOverlap),
        (DR::BeforeUnLimitRange(_), DR::BeforeUnLimitRange(_)) => Err(MergeError::AmbiguousOverlap),
        (DR::Any, _) => Err(MergeError::AmbiguousOverlap),
        (_, DR::Any) => Err(MergeError::AmbiguousOverlap),
    }
}

/// Whether `r` lies within the axis domain `[min, max]`, decided on machine
/// words.
pub fn check_domain_u64(r: DimensionRange<u64>, min: u64, max: u64) -> (b: bool)
    ensures
        b == within_domain(dr_int_u64(r), min as int, max as int),
{
    match r {
        DR::Single(p) => min <= p && p <= max,
        DR::LimitRange(s, e) => min <= s && s <= e && e <= max,
        DR::AfterUnLimitRange(s) => min <= s && s <= max,
        DR::BeforeUnLimitRange(e) => min <= e && e <= max,
        DR::Any => true,
    }
}

/// Whether `r` lies within the axis domain `[min, max]`, decided on machine
/// words.
pub fn check_domain_i64(r: DimensionRange<i64>, min: i64, max: i64) -> (b: bool)
    ensures
        b == within_domain(dr_int_i64(r), min as int, max as int),
{
    match r {
        DR::Single(p) => min <= p && p <= max,
        DR::LimitRange(s, e) => min <= s && s <= e && e <= max,
        DR::AfterUnLimitRange(s) => min <= s && s <= max,
        DR::BeforeUnLimitRange(e) => min <= e && e <= max,
        DR::Any => true,
    }
}

/// Whether `r` lies within the axis domain `[min, max]`, decided on machine
/// words.
pub fn check_domain_u32(r: DimensionRange<u32>, min: u32, max: u32) -> (b: bool)
    ensures
        b == within_domain(dr_int_u32(r), min as int, max as int),
{
    match r {
        DR::Single(p) => min <= p && p <= max,
        DR::LimitRange(s, e) => min <= s && s <= e && e <= max,
        DR::AfterUnLimitRange(s) => min <= s && s <= max,
        DR::BeforeUnLimitRange(e) => min <= e && e <= max,
        DR::Any => true,
    }
}

/// The interval allows one exact halving of the axis: both of its finite
/// edges sit on even cell borders, so dividing the axis into half as many
/// cells keeps the covered volume identical. A single coordinate never
/// allows it.
pub open spec fn can_halve(r: DimensionRange<int>) -> bool {
    match r {
        DimensionRange::Single(_) => false,
        DimensionRange::LimitRange(s, e) => s % 2 == 0 && (e + 1) % 2 == 0,
        DimensionRange::AfterUnLimitRange(s) => s % 2 == 0,
        DimensionRange::BeforeUnLimitRange(e) => (e + 1) % 2 == 0,
        DimensionRange::Any => true,
    }
}

/// Decides `can_halve` for a planar axis.
pub fn can_halve_u64(r: DimensionRange<u64>) -> (b: bool)
    ensures
        b == can_halve(dr_int_u64(r)),
{
    match r {
        DR::Single(_) => false,
        DR::LimitRange(s, e) => s % 2 == 0 && e % 2 == 1,
        DR::AfterUnLimitRange(s) => s % 2 == 0,
        DR::BeforeUnLimitRange(e) => e % 2 == 1,
        DR::Any => true,
    }
}

/// Decides `can_halve` for the vertical axis.
pub fn can_halve_i64(r: DimensionRange<i64>) -> (b: bool)
    ensures
        b == can_halve(dr_int_i64(r)),
{
    match r {
        DR::Single(_) => false,
        DR::LimitRange(s, e) => crate::num::is_even_i64(s) && !crate::num::is_even_i64(e),
        DR::AfterUnLimitRange(s) => crate::num::is_even_i64(s),
        DR::BeforeUnLimitRange(e) => !crate::num::is_even_i64(e),
        DR::Any => true,
    }
}

} // verus!
