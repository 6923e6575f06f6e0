use vstd::prelude::*;

use crate::contain::{
    frame_bounds_i64, frame_bounds_t, frame_bounds_u64, frame_hi_i64, frame_hi_u64,
    covers_point, frame_lo_i64, frame_lo_u64, spec_classify, to_range_i64, to_range_u32,
    to_range_u64, Containment,
};
use crate::id::{SpaceTimeId, MAX_ZOOM};
use crate::num::{
    div_pow2_floor_i64, gcd_s, gcd_u32, lcm_s, lemma_div_twice, lemma_div_within,
    lemma_divides_trans, lemma_gcd_divides, lemma_gcd_greatest, pow2_u64,
};
use crate::range::{
    covers, hi_of, lemma_covers_bounds, lo_of, within_domain,
    can_halve, can_halve_i64, can_halve_u64, dr_i64_of, dr_int_i64, dr_int_u32, dr_int_u64,
    dr_u32_of, dr_u64_of, is_single,
    lemma_merge_covers_union, lift_merge_i64, lift_merge_u32, lift_merge_u64, spec_try_merge,
    try_merge_i64, try_merge_u32, try_merge_u64, DimensionRange, MergeError,
};
use crate::range::DimensionRange as DR;
use vstd::arithmetic::div_mod::{
    lemma_fundamental_div_mod, lemma_fundamental_div_mod_converse, lemma_small_mod,
};
use vstd::arithmetic::power2::{
    lemma2_to64, lemma2_to64_rest, lemma_pow2_adds, lemma_pow2_pos,
    lemma_pow2_strictly_increases, pow2,
};
use vstd::pervasive::unreached;

verus! {

/// How many overlap-split rounds one insertion may run before the remaining
/// fragments are stored without further reconciliation; far beyond any
/// depth the split cascade reaches on representable inputs.
pub const SPLIT_ROUNDS: usize = 1000000;

/// An ordered collection of tile identifiers; the union of their volumes is
/// the set's denotation. Insertion keeps every element well-formed and at
/// the coarsest zoom and time resolution that still denotes exactly its own
/// volume, and reconciles an incoming identifier against the first element
/// it overlaps, as `spec_scan` and `spec_push` state.
#[derive(Clone, Debug)]
pub struct SpaceTimeIdSet {
    inner: Vec<SpaceTimeId>,
}

/// An interval with both endpoints divided by `2^d`, rounding down.
pub open spec fn spec_scale_u64(r: DimensionRange<u64>, d: u16) -> DimensionRange<u64> {
    match r {
        DimensionRange::Single(p) => DimensionRange::Single(p),
        DimensionRange::LimitRange(s, e) => DimensionRange::LimitRange(
            (s as int / pow2(d as nat) as int) as u64,
            (e as int / pow2(d as nat) as int) as u64,
        ),
        DimensionRange::AfterUnLimitRange(s) => DimensionRange::AfterUnLimitRange(
            (s as int / pow2(d as nat) as int) as u64,
        ),
        DimensionRange::BeforeUnLimitRange(e) => DimensionRange::BeforeUnLimitRange(
            (e as int / pow2(d as nat) as int) as u64,
        ),
        DimensionRange::Any => DimensionRange::Any,
    }
}

/// An interval with both endpoints divided by `2^d`, rounding down.
pub open spec fn spec_scale_i64(r: DimensionRange<i64>, d: u16) -> DimensionRange<i64> {
    match r {
        DimensionRange::Single(p) => DimensionRange::Single(p),
        DimensionRange::LimitRange(s, e) => DimensionRange::LimitRange(
            (s as int / pow2(d as nat) as int) as i64,
            (e as int / pow2(d as nat) as int) as i64,
        ),
        DimensionRange::AfterUnLimitRange(s) => DimensionRange::AfterUnLimitRange(
            (s as int / pow2(d as nat) as int) as i64,
        ),
        DimensionRange::BeforeUnLimitRange(e) => DimensionRange::BeforeUnLimitRange(
            (e as int / pow2(d as nat) as int) as i64,
        ),
        DimensionRange::Any => DimensionRange::Any,
    }
}

/// The zoom can come down one step without changing any covered volume:
/// all three spatial axes sit on even cell borders.
pub open spec fn can_halve_all(id: SpaceTimeId) -> bool {
    &&& id.z > 0
    &&& can_halve(dr_int_u64(id.x))
    &&& can_halve(dr_int_u64(id.y))
    &&& can_halve(dr_int_i64(id.f))
}

/// The identifier one zoom step coarser, covering the same volume.
pub open spec fn halved(id: SpaceTimeId) -> SpaceTimeId {
    SpaceTimeId {
        z: (id.z - 1) as u16,
        f: spec_scale_i64(id.f, 1),
        x: spec_scale_u64(id.x, 1),
        y: spec_scale_u64(id.y, 1),
        i: id.i,
        t: id.t,
    }
}

/// The coarsest zoom presentation of `id`: halve while every spatial axis
/// allows it.
pub open spec fn spec_optimal_z(id: SpaceTimeId) -> SpaceTimeId
    decreases id.z,
{
    if can_halve_all(id) {
        spec_optimal_z(halved(id))
    } else {
        id
    }
}

/// The time interval as a pair of slice numbers `[n1, n2)`, or nothing for
/// the open-ended shapes that time-unit reduction leaves alone.
pub open spec fn time_nums(id: SpaceTimeId) -> Option<(int, int)> {
    match id.t {
        DimensionRange::Single(s) => Some((s as int, s as int + 1)),
        DimensionRange::LimitRange(s, e) => Some((s as int, e as int + 1)),
        DimensionRange::BeforeUnLimitRange(e) => Some((0int, e as int + 1)),
        DimensionRange::AfterUnLimitRange(_) => None,
        DimensionRange::Any => None,
    }
}

/// The time axis rewritten at the coarsest slice count that still covers the
/// same span of the epoch: both slice numbers and the slice count divided by
/// their greatest common divisor.
pub open spec fn spec_optimal_i(id: SpaceTimeId) -> SpaceTimeId {
    match time_nums(id) {
        Option::None => id,
        Option::Some((n1, n2)) => {
            let d = gcd_s(gcd_s(n1 as nat, n2 as nat), id.i as nat) as int;
            if d <= 1 {
                id
            } else {
                SpaceTimeId {
                    z: id.z,
                    f: id.f,
                    x: id.x,
                    y: id.y,
                    i: (id.i as int / d) as u32,
                    t: DimensionRange::LimitRange((n1 / d) as u32, (n2 / d - 1) as u32),
                }
            }
        },
    }
}

/// The zoom admits no further lossless coarsening.
pub open spec fn reduced_zoom(id: SpaceTimeId) -> bool {
    !can_halve_all(id)
}

/// The slice count admits no further lossless coarsening: the slice numbers
/// and the count share no factor.
pub open spec fn reduced_time(id: SpaceTimeId) -> bool {
    match time_nums(id) {
        Option::None => true,
        Option::Some((n1, n2)) => gcd_s(gcd_s(n1 as nat, n2 as nat), id.i as nat) == 1,
    }
}

/// Both resolution axes of the identifier are at their fixed point.
pub open spec fn reduced(id: SpaceTimeId) -> bool {
    reduced_zoom(id) && reduced_time(id)
}

/// What insertion makes of a raw identifier before it joins a set.
pub open spec fn spec_opt(id: SpaceTimeId) -> SpaceTimeId {
    spec_optimal_z(spec_optimal_i(id))
}

/// A permitted halving of a planar axis is lossless: over the finer domain
/// `[0, 2p - 1]` a cell `v` is covered exactly when its parent cell `v / 2`
/// is covered over the coarser domain `[0, p - 1]`.
pub proof fn lemma_halve_covers_u64(r: DimensionRange<u64>, p: int, v: int)
    requires
        p >= 1,
        within_domain(dr_int_u64(r), 0, 2 * p - 1),
        can_halve(dr_int_u64(r)),
        0 <= v <= 2 * p - 1,
    ensures
        covers(dr_int_u64(r), 0, 2 * p - 1, v) <==> covers(
            dr_int_u64(spec_scale_u64(r, 1)),
            0,
            p - 1,
            v / 2,
        ),
{
    lemma2_to64();
    lemma_fundamental_div_mod(v, 2);
    match r {
        DR::Single(_) => {},
        DR::LimitRange(s, e) => {
            lemma_fundamental_div_mod(s as int, 2);
            lemma_fundamental_div_mod(e as int, 2);
        },
        DR::AfterUnLimitRange(s) => {
            lemma_fundamental_div_mod(s as int, 2);
        },
        DR::BeforeUnLimitRange(e) => {
            lemma_fundamental_div_mod(e as int, 2);
        },
        DR::Any => {},
    }
}

/// A permitted halving of the vertical axis is lossless: over the finer
/// domain `[-2p, 2p - 1]` a cell `v` is covered exactly when its parent cell
/// `v / 2` is covered over the coarser domain `[-p, p - 1]`.
pub proof fn lemma_halve_covers_i64(r: DimensionRange<i64>, p: int, v: int)
    requires
        p >= 1,
        within_domain(dr_int_i64(r), -(2 * p), 2 * p - 1),
        can_halve(dr_int_i64(r)),
        -(2 * p) <= v <= 2 * p - 1,
    ensures
        covers(dr_int_i64(r), -(2 * p), 2 * p - 1, v) <==> covers(
            dr_int_i64(spec_scale_i64(r, 1)),
            -p,
            p - 1,
            v / 2,
        ),
{
    lemma2_to64();
    lemma_fundamental_div_mod(v, 2);
    match r {
        DR::Single(_) => {},
        DR::LimitRange(s, e) => {
            lemma_fundamental_div_mod(s as int, 2);
            lemma_fundamental_div_mod(e as int, 2);
        },
        DR::AfterUnLimitRange(s) => {
            lemma_fundamental_div_mod(s as int, 2);
        },
        DR::BeforeUnLimitRange(e) => {
            lemma_fundamental_div_mod(e as int, 2);
        },
        DR::Any => {},
    }
}

/// One zoom step down keeps the identifier well-formed.
proof fn lemma_halved_wf(id: SpaceTimeId)
    requires
        id.wf(),
        can_halve_all(id),
    ensures
        halved(id).wf(),
        halved(id).z < id.z,
{
    lemma_pow2_adds((id.z - 1) as nat, 1);
    lemma2_to64();
    lemma_pow2_pos((id.z - 1) as nat);
    let p = pow2((id.z - 1) as nat) as int;
    assert(pow2(id.z as nat) == 2 * p);
    assert((2 * p - 1) / 2 == p - 1) by {
        lemma_fundamental_div_mod_converse(2 * p - 1, 2, p - 1, 1);
    }
    assert((-(2 * p)) / 2 == -p) by {
        lemma_fundamental_div_mod_converse(-(2 * p), 2, -p, 0);
    }
}

impl SpaceTimeIdSet {
    /// The elements, in order.
    pub closed spec fn elems(self) -> Seq<SpaceTimeId> {
        self.inner@
    }

    /// Every element is well-formed and at its resolution fixed point.
    pub open spec fn set_wf(self) -> bool {
        forall|k: int|
            0 <= k < self.elems().len() ==> (#[trigger] self.elems()[k]).wf() && reduced(
                self.elems()[k],
            )
    }

    /// The empty set.
    pub fn new() -> (r: Self)
        ensures
            r.elems() =~= Seq::<SpaceTimeId>::empty(),
            r.set_wf(),
    {
        SpaceTimeIdSet { inner: Vec::new() }
    }

    /// Whether no identifier is held.
    pub fn is_empty(&self) -> (r: bool)
        ensures
            r <==> self.elems().len() == 0,
    {
        self.inner.len() == 0
    }

    /// How many identifiers are held.
    pub fn len(&self) -> (r: usize)
        ensures
            r == self.elems().len(),
    {
        self.inner.len()
    }

    /// The element at position `k`.
    pub fn element(&self, k: usize) -> (r: SpaceTimeId)
        requires
            k < self.elems().len(),
        ensures
            r == self.elems()[k as int],
    {
        self.inner[k]
    }

    /// Divides a planar interval's endpoints by `2^delta_z`; a single
    /// coordinate never reaches a rescale.
    pub fn scale_range_for_z_u64(range: DimensionRange<u64>, delta_z: u16) -> (r: DimensionRange<
        u64,
    >)
        requires
            delta_z <= 62,
            !is_single(range),
        ensures
            r == spec_scale_u64(range, delta_z),
    {
        let sc = pow2_u64(delta_z);
        match range {
            DR::Single(_) => unreached(),
            DR::LimitRange(s, e) => DR::LimitRange(s / sc, e / sc),
            DR::AfterUnLimitRange(s) => DR::AfterUnLimitRange(s / sc),
            DR::BeforeUnLimitRange(e) => DR::BeforeUnLimitRange(e / sc),
            DR::Any => DR::Any,
        }
    }

    /// Divides a vertical interval's endpoints by `2^delta_z`, rounding
    /// towards the bottom of the axis; a single coordinate never reaches a
    /// rescale.
    pub fn scale_range_for_z_i64(range: DimensionRange<i64>, delta_z: u16) -> (r: DimensionRange<
        i64,
    >)
        requires
            delta_z <= 62,
            !is_single(range),
        ensures
            r == spec_scale_i64(range, delta_z),
    {
        match range {
            DR::Single(_) => unreached(),
            DR::LimitRange(s, e) => DR::LimitRange(
                div_pow2_floor_i64(s, delta_z),
                div_pow2_floor_i64(e, delta_z),
            ),
            DR::AfterUnLimitRange(s) => DR::AfterUnLimitRange(div_pow2_floor_i64(s, delta_z)),
            DR::BeforeUnLimitRange(e) => DR::BeforeUnLimitRange(div_pow2_floor_i64(e, delta_z)),
            DR::Any => DR::Any,
        }
    }

    /// Brings the identifier to the coarsest zoom that covers exactly the
    /// same volume: while all three spatial axes sit on even cell borders,
    /// halve them and step the zoom down.
    pub fn optimal_z(other: SpaceTimeId) -> (r: SpaceTimeId)
        requires
            other.wf(),
        ensures
            r == spec_optimal_z(other),
            r.wf(),
            reduced_zoom(r),
            r.i == other.i,
            r.t == other.t,
    {
        let mut cur = other;
        while cur.z > 0 && can_halve_u64(cur.x) && can_halve_u64(cur.y) && can_halve_i64(cur.f)
            invariant
                cur.wf(),
                cur.i == other.i,
                cur.t == other.t,
                spec_optimal_z(cur) == spec_optimal_z(other),
            decreases cur.z,
        {
            let nx = Self::scale_range_for_z_u64(cur.x, 1);
            let ny = Self::scale_range_for_z_u64(cur.y, 1);
            let nf = Self::scale_range_for_z_i64(cur.f, 1);
            let next = SpaceTimeId { z: cur.z - 1, f: nf, x: nx, y: ny, i: cur.i, t: cur.t };
            proof {
                assert(next == halved(cur));
                lemma_halved_wf(cur);
            }
            cur = next;
        }
        cur
    }

    /// Brings the time axis to the coarsest slice count that covers exactly
    /// the same span: slice numbers and count are divided by their greatest
    /// common divisor. Open-ended time shapes are left unchanged.
    pub fn optimal_i(other: SpaceTimeId) -> (r: SpaceTimeId)
        requires
            other.wf(),
        ensures
            r == spec_optimal_i(other),
            r.wf(),
            reduced_time(r),
            r.z == other.z,
            r.x == other.x,
            r.y == other.y,
            r.f == other.f,
    {
        let (n1, n2): (u32, u32) = match other.t {
            DR::Single(s) => (s, s + 1),
            DR::LimitRange(s, e) => (s, e + 1),
            DR::BeforeUnLimitRange(e) => (0, e + 1),
            DR::AfterUnLimitRange(_) => {
                return other;
            },
            DR::Any => {
                return other;
            },
        };
        let g0 = gcd_u32(n1, n2);
        let d = gcd_u32(g0, other.i);
        proof {
            lemma_gcd_divides(n1 as nat, n2 as nat);
            lemma_gcd_divides(g0 as nat, other.i as nat);
            lemma_optimal_i_divisors(n1 as nat, n2 as nat, other.i as nat);
        }
        if d <= 1 {
            return other;
        }
        let ni = other.i / d;
        let t1 = n1 / d;
        let t2 = n2 / d;
        proof {
            lemma_fundamental_div_mod(n1 as int, d as int);
            lemma_fundamental_div_mod(n2 as int, d as int);
            lemma_fundamental_div_mod(other.i as int, d as int);
            assert(t1 < t2 && t2 <= ni && ni >= 1) by (nonlinear_arith)
                requires
                    n1 as int == d as int * t1 as int,
                    n2 as int == d as int * t2 as int,
                    other.i as int == d as int * ni as int,
                    n1 < n2,
                    n2 <= other.i,
                    other.i >= 1,
                    d >= 1,
            ;
        }
        SpaceTimeId {
            z: other.z,
            f: other.f,
            x: other.x,
            y: other.y,
            i: ni,
            t: DR::LimitRange(t1, t2 - 1),
        }
    }
}

/// What a scan of the collection decides about an incoming identifier:
/// append it untouched, drop it as fully covered, or split it against its
/// intersection with the first overlapping element.
pub enum ScanOutcome {
    Append,
    Drop,
    Split(SpaceTimeId),
}

/// The identifier that a continuity merge of the stored element `e` with the
/// incoming `o` would produce: `e` and `o` must agree on zoom, time
/// resolution and exactly three of the four axes, and the one differing axis
/// must merge by adjacency. Nothing otherwise.
pub open spec fn spec_merge_candidate(e: SpaceTimeId, o: SpaceTimeId) -> Option<SpaceTimeId> {
    if e.z == o.z && e.i == o.i {
        let mx = e.x == o.x;
        let my = e.y == o.y;
        let mf = e.f == o.f;
        let mt = e.t == o.t;
        if !mx && my && mf && mt {
            match spec_try_merge(dr_int_u64(e.x), dr_int_u64(o.x)) {
                Ok(Some(m)) => Some(
                    SpaceTimeId { z: e.z, f: e.f, x: dr_u64_of(m), y: e.y, i: e.i, t: e.t },
                ),
                _ => None,
            }
        } else if mx && !my && mf && mt {
            match spec_try_merge(dr_int_u64(e.y), dr_int_u64(o.y)) {
                Ok(Some(m)) => Some(
                    SpaceTimeId { z: e.z, f: e.f, x: e.x, y: dr_u64_of(m), i: e.i, t: e.t },
                ),
                _ => None,
            }
        } else if mx && my && !mf && mt {
            match spec_try_merge(dr_int_i64(e.f), dr_int_i64(o.f)) {
                Ok(Some(m)) => Some(
                    SpaceTimeId { z: e.z, f: dr_i64_of(m), x: e.x, y: e.y, i: e.i, t: e.t },
                ),
                _ => None,
            }
        } else if mx && my && mf && !mt {
            match spec_try_merge(dr_int_u32(e.t), dr_int_u32(o.t)) {
                Ok(Some(m)) => Some(
                    SpaceTimeId { z: e.z, f: e.f, x: e.x, y: e.y, i: e.i, t: dr_u32_of(m) },
                ),
                _ => None,
            }
        } else {
            None
        }
    } else {
        None
    }
}

/// The position and merged value of the first element from position `k` on
/// that a continuity merge with `o` would absorb; nothing when no element
/// qualifies.
pub open spec fn spec_first_candidate(s: Seq<SpaceTimeId>, o: SpaceTimeId, k: int) -> Option<
    (int, SpaceTimeId),
>
    decreases s.len() - k,
{
    if k < 0 || k >= s.len() {
        None
    } else {
        match spec_merge_candidate(s[k], o) {
            Some(m) => Some((k, m)),
            None => spec_first_candidate(s, o, k + 1),
        }
    }
}

/// What `optimal_push` stores: the first merge candidate replaces its
/// element by the re-optimized merge; with no candidate, the re-optimized
/// incoming identifier is appended.
pub open spec fn spec_push(s: Seq<SpaceTimeId>, o: SpaceTimeId) -> Seq<SpaceTimeId> {
    match spec_first_candidate(s, o, 0) {
        Some((k, m)) => s.update(k, spec_opt(m)),
        None => s.push(spec_opt(o)),
    }
}

/// How one insertion scan ends: the first element whose common time
/// resolution is representable and whose classification against `cur` is not
/// disjoint decides — `Full` drops `cur`, `Partial` splits it against the
/// intersection; if no element decides, `cur` is appended.
pub open spec fn spec_scan(s: Seq<SpaceTimeId>, cur: SpaceTimeId, k: int) -> ScanOutcome
    decreases s.len() - k,
{
    if k < 0 || k >= s.len() {
        ScanOutcome::Append
    } else if lcm_s(s[k].i as nat, cur.i as nat) <= u32::MAX as nat {
        match spec_classify(s[k], cur) {
            Containment::Full => ScanOutcome::Drop,
            Containment::Partial(o) => ScanOutcome::Split(o),
            Containment::Disjoint => spec_scan(s, cur, k + 1),
        }
    } else {
        spec_scan(s, cur, k + 1)
    }
}

/// The identifier naming the whole representable universe.
pub open spec fn spec_universe() -> SpaceTimeId {
    SpaceTimeId {
        z: 0u16,
        f: DimensionRange::<i64>::Any,
        x: DimensionRange::<u64>::Any,
        y: DimensionRange::<u64>::Any,
        i: 1u32,
        t: DimensionRange::<u32>::Any,
    }
}

/// What intersecting a single pair of identifiers yields: the re-optimized
/// overlap, the re-optimized contained identifier when containment is full,
/// nothing when they are disjoint or their common time resolution does not
/// fit a slice count.
pub open spec fn spec_pair_overlap(a: SpaceTimeId, b: SpaceTimeId) -> Seq<SpaceTimeId> {
    if lcm_s(a.i as nat, b.i as nat) <= u32::MAX as nat {
        match spec_classify(a, b) {
            Containment::Full => seq![spec_opt(b)],
            Containment::Partial(o) => seq![spec_opt(o)],
            Containment::Disjoint => Seq::empty(),
        }
    } else {
        Seq::empty()
    }
}

impl SpaceTimeIdSet {
    /// Adjacency merge over a planar axis; see `spec_try_merge`.
    pub fn to_continuous_xy(
        target: DimensionRange<u64>,
        other: DimensionRange<u64>,
    ) -> (r: Result<Option<DimensionRange<u64>>, MergeError>)
        ensures
            lift_merge_u64(r) == spec_try_merge(dr_int_u64(target), dr_int_u64(other)),
    {
        try_merge_u64(target, other)
    }

    /// Adjacency merge over the vertical axis; see `spec_try_merge`.
    pub fn to_continuous_f(
        target: DimensionRange<i64>,
        other: DimensionRange<i64>,
    ) -> (r: Result<Option<DimensionRange<i64>>, MergeError>)
        ensures
            lift_merge_i64(r) == spec_try_merge(dr_int_i64(target), dr_int_i64(other)),
    {
        try_merge_i64(target, other)
    }

    /// Adjacency merge over the time axis; see `spec_try_merge`.
    pub fn to_continuous_t(
        target: DimensionRange<u32>,
        other: DimensionRange<u32>,
    ) -> (r: Result<Option<DimensionRange<u32>>, MergeError>)
        ensures
            lift_merge_u32(r) == spec_try_merge(dr_int_u32(target), dr_int_u32(other)),
    {
        try_merge_u32(target, other)
    }

    /// Appends `other` after trying a continuity merge, exactly as
    /// `spec_push` states: the first element matching `other` on zoom, time
    /// resolution and all but exactly one axis, whose differing axis is
    /// adjacent, is replaced by the re-optimized merge; with no such element
    /// the re-optimized `other` is appended. All other elements keep their
    /// value and position.
    #[verifier::rlimit(50)]
    pub fn optimal_push(&mut self, other: SpaceTimeId)
        requires
            old(self).set_wf(),
            other.wf(),
        ensures
            final(self).set_wf(),
            final(self).elems().len() >= old(self).elems().len(),
            final(self).elems() == spec_push(old(self).elems(), other),
    {
        let mut k: usize = 0;
        while k < self.inner.len()
            invariant
                k <= self.inner.len(),
                self == old(self),
                other.wf(),
                old(self).set_wf(),
                spec_first_candidate(old(self).elems(), other, 0) == spec_first_candidate(
                    old(self).elems(),
                    other,
                    k as int,
                ),
            decreases self.inner.len() - k,
        {
            let stid = self.inner[k];
            proof {
                assert(stid == old(self).elems()[k as int]);
            }
            if stid.z == other.z && stid.i == other.i {
                let mx = stid.x == other.x;
                let my = stid.y == other.y;
                let mf = stid.f == other.f;
                let mt = stid.t == other.t;
                proof {
                    lemma_pow2_pos(stid.z as nat);
                }
                if !mx && my && mf && mt {
                    match Self::to_continuous_xy(stid.x, other.x) {
                        Ok(Some(m)) => {
                            proof {
                                lemma_merge_covers_union(
                                    dr_int_u64(stid.x),
                                    dr_int_u64(other.x),
                                    dr_int_u64(m),
                                    0,
                                    pow2(stid.z as nat) - 1,
                                );
                            }
                            let nid = SpaceTimeId {
                                z: stid.z,
                                f: stid.f,
                                x: m,
                                y: stid.y,
                                i: stid.i,
                                t: stid.t,
                            };
                            let v = Self::optimal_z(Self::optimal_i(nid));
                            proof {
                                assert(dr_u64_of(dr_int_u64(m)) == m);
                                assert(spec_merge_candidate(stid, other) == Some(nid));
                                assert(spec_first_candidate(
                                    old(self).elems(),
                                    other,
                                    k as int,
                                ) == Some((k as int, nid)));
                            }
                            self.inner.set(k, v);
                            proof {
                                assert(self.elems() =~= old(self).elems().update(
                                    k as int,
                                    v,
                                ));
                            }
                            return ;
                        },
                        _ => {},
                    }
                } else if mx && !my && mf && mt {
                    match Self::to_continuous_xy(stid.y, other.y) {
                        Ok(Some(m)) => {
                            proof {
                                lemma_merge_covers_union(
                                    dr_int_u64(stid.y),
                                    dr_int_u64(other.y),
                                    dr_int_u64(m),
                                    0,
                                    pow2(stid.z as nat) - 1,
                                );
                            }
                            let nid = SpaceTimeId {
                                z: stid.z,
                                f: stid.f,
                                x: stid.x,
                                y: m,
                                i: stid.i,
                                t: stid.t,
                            };
                            let v = Self::optimal_z(Self::optimal_i(nid));
                            proof {
                                assert(dr_u64_of(dr_int_u64(m)) == m);
                                assert(spec_merge_candidate(stid, other) == Some(nid));
                                assert(spec_first_candidate(
                                    old(self).elems(),
                                    other,
                                    k as int,
                                ) == Some((k as int, nid)));
                            }
                            self.inner.set(k, v);
                            proof {
                                assert(self.elems() =~= old(self).elems().update(
                                    k as int,
                                    v,
                                ));
                            }
                            return ;
                        },
                        _ => {},
                    }
                } else if mx && my && !mf && mt {
                    match Self::to_continuous_f(stid.f, other.f) {
                        Ok(Some(m)) => {
                            proof {
                                lemma_merge_covers_union(
                                    dr_int_i64(stid.f),
                                    dr_int_i64(other.f),
                                    dr_int_i64(m),
                                    -(pow2(stid.z as nat) as int),
                                    pow2(stid.z as nat) - 1,
                                );
                            }
                            let nid = SpaceTimeId {
                                z: stid.z,
                                f: m,
                                x: stid.x,
                                y: stid.y,
                                i: stid.i,
                                t: stid.t,
                            };
                            let v = Self::optimal_z(Self::optimal_i(nid));
                            proof {
                                assert(dr_i64_of(dr_int_i64(m)) == m);
                                assert(spec_merge_candidate(stid, other) == Some(nid));
                                assert(spec_first_candidate(
                                    old(self).elems(),
                                    other,
                                    k as int,
                                ) == Some((k as int, nid)));
                            }
                            self.inner.set(k, v);
                            proof {
                                assert(self.elems() =~= old(self).elems().update(
                                    k as int,
                                    v,
                                ));
                            }
                            return ;
                        },
                        _ => {},
                    }
                } else if mx && my && mf && !mt {
                    match Self::to_continuous_t(stid.t, other.t) {
                        Ok(Some(m)) => {
                            proof {
                                lemma_merge_covers_union(
                                    dr_int_u32(stid.t),
                                    dr_int_u32(other.t),
                                    dr_int_u32(m),
                                    0,
                                    stid.i - 1,
                                );
                            }
                            let nid = SpaceTimeId {
                                z: stid.z,
                                f: stid.f,
                                x: stid.x,
                                y: stid.y,
                                i: stid.i,
                                t: m,
                            };
                            let v = Self::optimal_z(Self::optimal_i(nid));
                            proof {
                                assert(dr_u32_of(dr_int_u32(m)) == m);
                                assert(spec_merge_candidate(stid, other) == Some(nid));
                                assert(spec_first_candidate(
                                    old(self).elems(),
                                    other,
                                    k as int,
                                ) == Some((k as int, nid)));
                            }
                            self.inner.set(k, v);
                            proof {
                                assert(self.elems() =~= old(self).elems().update(
                                    k as int,
                                    v,
                                ));
                            }
                            return ;
                        },
                        _ => {},
                    }
                }
            }
            proof {
                assert(spec_merge_candidate(stid, other) is None);
                assert(spec_first_candidate(old(self).elems(), other, k as int)
                    == spec_first_candidate(old(self).elems(), other, k as int + 1));
            }
            k = k + 1;
        }
        proof {
            assert(spec_first_candidate(old(self).elems(), other, k as int) is None);
        }
        let v = Self::optimal_z(Self::optimal_i(other));
        self.inner.push(v);
        proof {
            assert(self.elems() =~= old(self).elems().push(v));
        }
    }

    /// The disjoint decomposition of everything the identifier's zoom and
    /// time resolution can address outside the identifier itself: up to two
    /// pieces per axis, each earlier axis pinned to the identifier's own
    /// interval.
    fn complement_pieces(id: SpaceTimeId) -> (r: Vec<SpaceTimeId>)
        requires
            id.wf(),
        ensures
            forall|k: int| 0 <= k < r@.len() ==> (#[trigger] r@[k]).wf(),
    {
        let mut v: Vec<SpaceTimeId> = Vec::new();
        let pmax = pow2_u64(id.z) - 1;
        proof {
            lemma_pow2_strictly_increases(id.z as nat, 63);
            lemma2_to64_rest();
        }
        let (xlo, xhi) = frame_bounds_u64(id.x, id.z, id.z);
        let (ylo, yhi) = frame_bounds_u64(id.y, id.z, id.z);
        let (flo, fhi) = frame_bounds_i64(id.f, id.z, id.z);
        let (tlo, thi) = frame_bounds_t(id.t, id.i, 1);
        if xlo > 0 {
            let piece = SpaceTimeId {
                z: id.z,
                f: DR::Any,
                x: to_range_u64(0, xlo - 1, pmax),
                y: DR::Any,
                i: id.i,
                t: DR::Any,
            };
            v.push(piece);
        }
        if xhi < pmax {
            let piece = SpaceTimeId {
                z: id.z,
                f: DR::Any,
                x: to_range_u64(xhi + 1, pmax, pmax),
                y: DR::Any,
                i: id.i,
                t: DR::Any,
            };
            v.push(piece);
        }
        if ylo > 0 {
            let piece = SpaceTimeId {
                z: id.z,
                f: DR::Any,
                x: id.x,
                y: to_range_u64(0, ylo - 1, pmax),
                i: id.i,
                t: DR::Any,
            };
            v.push(piece);
        }
        if yhi < pmax {
            let piece = SpaceTimeId {
                z: id.z,
                f: DR::Any,
                x: id.x,
                y: to_range_u64(yhi + 1, pmax, pmax),
                i: id.i,
                t: DR::Any,
            };
            v.push(piece);
        }
        let fmin = -(pmax as i64) - 1;
        let fmaxi = pmax as i64;
        if flo > fmin {
            let piece = SpaceTimeId {
                z: id.z,
                f: to_range_i64(fmin, flo - 1, fmin, fmaxi),
                x: id.x,
                y: id.y,
                i: id.i,
                t: DR::Any,
            };
            v.push(piece);
        }
        if fhi < fmaxi {
            let piece = SpaceTimeId {
                z: id.z,
                f: to_range_i64(fhi + 1, fmaxi, fmin, fmaxi),
                x: id.x,
                y: id.y,
                i: id.i,
                t: DR::Any,
            };
            v.push(piece);
        }
        if tlo > 0 {
            let piece = SpaceTimeId {
                z: id.z,
                f: id.f,
                x: id.x,
                y: id.y,
                i: id.i,
                t: to_range_u32(0, tlo - 1, id.i - 1),
            };
            v.push(piece);
        }
        if thi < id.i - 1 {
            let piece = SpaceTimeId {
                z: id.z,
                f: id.f,
                x: id.x,
                y: id.y,
                i: id.i,
                t: to_range_u32(thi + 1, id.i - 1, id.i - 1),
            };
            v.push(piece);
        }
        v
    }

    /// Scans the elements in order for the first one that relates to `cur`,
    /// exactly as `spec_scan` states. Elements whose common time resolution
    /// with `cur` does not fit a slice count are passed over as unrelated.
    fn scan_one(&self, cur: SpaceTimeId) -> (r: ScanOutcome)
        requires
            self.set_wf(),
            cur.wf(),
        ensures
            r == spec_scan(self.elems(), cur, 0),
            r matches ScanOutcome::Split(o) ==> o.wf(),
    {
        let mut outcome: ScanOutcome = ScanOutcome::Append;
        let mut scanning: bool = true;
        let mut k: usize = 0;
        while k < self.inner.len() && scanning
            invariant
                k <= self.inner.len(),
                self.set_wf(),
                cur.wf(),
                scanning ==> outcome == ScanOutcome::Append,
                scanning ==> spec_scan(self.elems(), cur, 0) == spec_scan(
                    self.elems(),
                    cur,
                    k as int,
                ),
                !scanning ==> outcome == spec_scan(self.elems(), cur, 0),
                outcome matches ScanOutcome::Split(o) ==> o.wf(),
            decreases self.inner.len() - k,
        {
            let e = self.inner[k];
            let g = gcd_u32(e.i, cur.i);
            proof {
                assert(e == self.elems()[k as int]);
                lemma_gcd_divides(e.i as nat, cur.i as nat);
            }
            let q = e.i / g;
            proof {
                assert((q as int) * (cur.i as int) < 0x10000000000000000) by (nonlinear_arith)
                    requires
                        q as int <= 0xFFFFFFFF,
                        cur.i as int <= 0xFFFFFFFF,
                ;
            }
            let l64 = (q as u64) * (cur.i as u64);
            proof {
                assert(lcm_s(e.i as nat, cur.i as nat) == l64 as nat);
            }
            if l64 <= 0xFFFF_FFFFu64 {
                match e.containment_relation(&cur) {
                    Containment::Full => {
                        outcome = ScanOutcome::Drop;
                        scanning = false;
                    },
                    Containment::Partial(o) => {
                        outcome = ScanOutcome::Split(o);
                        scanning = false;
                    },
                    Containment::Disjoint => {},
                }
            }
            k = k + 1;
        }
        outcome
    }

    /// What is left of `cur` outside the overlap `o`: each piece of `o`'s
    /// complement decomposition intersected with `cur`. Pieces whose common
    /// time resolution with `cur` does not fit a slice count are passed over.
    fn remainders(o: SpaceTimeId, cur: SpaceTimeId) -> (r: Vec<SpaceTimeId>)
        requires
            o.wf(),
            cur.wf(),
        ensures
            forall|j: int| 0 <= j < r@.len() ==> (#[trigger] r@[j]).wf(),
    {
        let pieces = Self::complement_pieces(o);
        let mut r: Vec<SpaceTimeId> = Vec::new();
        let mut j: usize = 0;
        while j < pieces.len()
            invariant
                j <= pieces.len(),
                cur.wf(),
                forall|m: int| 0 <= m < pieces@.len() ==> (#[trigger] pieces@[m]).wf(),
                forall|m: int| 0 <= m < r@.len() ==> (#[trigger] r@[m]).wf(),
            decreases pieces.len() - j,
        {
            let p = pieces[j];
            let g2 = gcd_u32(p.i, cur.i);
            proof {
                assert(p == pieces@[j as int]);
                lemma_gcd_divides(p.i as nat, cur.i as nat);
            }
            let q2 = p.i / g2;
            proof {
                assert((q2 as int) * (cur.i as int) < 0x10000000000000000) by (nonlinear_arith)
                    requires
                        q2 as int <= 0xFFFFFFFF,
                        cur.i as int <= 0xFFFFFFFF,
                ;
            }
            let l2 = (q2 as u64) * (cur.i as u64);
            if l2 <= 0xFFFF_FFFFu64 {
                proof {
                    assert(lcm_s(p.i as nat, cur.i as nat) == l2 as nat);
                }
                match p.containment_relation(&cur) {
                    Containment::Full => {
                        r.push(cur);
                    },
                    Containment::Partial(ov) => {
                        r.push(ov);
                    },
                    Containment::Disjoint => {},
                }
            }
            j = j + 1;
        }
        r
    }

    /// Inserts an identifier while keeping every element well-formed and at
    /// its resolution fixed point. Into an empty set the re-optimized
    /// identifier is stored as is. Otherwise the elements are scanned in
    /// order (see `spec_scan`): an element fully covering the identifier
    /// absorbs it without any change to the set; if no element overlaps it,
    /// it is stored through the continuity merge of `spec_push`; the first
    /// partial overlap replaces it by its remainder pieces outside the
    /// overlap, which are inserted in turn the same way.
    ///
    /// Two bounded concessions, both visible in `spec_scan` or here: a pair
    /// whose common time resolution exceeds what a slice count holds is
    /// passed over as unrelated, and after `SPLIT_ROUNDS` split rounds any
    /// fragments still pending are stored through the continuity merge
    /// without a further containment scan.
    pub fn insert(&mut self, other: SpaceTimeId)
        requires
            old(self).set_wf(),
            other.wf(),
        ensures
            final(self).set_wf(),
            final(self).elems().len() >= 1,
            final(self).elems().len() >= old(self).elems().len(),
            old(self).elems().len() == 0 ==> final(self).elems() =~= seq![spec_opt(other)],
            spec_scan(old(self).elems(), other, 0) == ScanOutcome::Drop ==> final(self).elems()
                == old(self).elems(),
            old(self).elems().len() > 0 && spec_scan(old(self).elems(), other, 0)
                == ScanOutcome::Append ==> final(self).elems() == spec_push(
                old(self).elems(),
                other,
            ),
            covers_superset(final(self).elems(), old(self).elems()),
            old(self).elems().len() == 0 ==> denotes_id(final(self).elems(), other),
            spec_scan(old(self).elems(), other, 0) == ScanOutcome::Drop ==> covered_by(
                old(self).elems(),
                other,
            ),
            old(self).elems().len() > 0 && spec_scan(old(self).elems(), other, 0)
                == ScanOutcome::Append ==> denotes_union(
                final(self).elems(),
                old(self).elems(),
                other,
            ),
    {
        if self.inner.len() == 0 {
            let v = Self::optimal_z(Self::optimal_i(other));
            self.inner.push(v);
            proof {
                assert forall|px: int, py: int, pf: int, tn: int, td: int| td >= 1 implies (
                seq_covers(self.elems(), px, py, pf, tn, td) <==> covers_point(
                    other,
                    px,
                    py,
                    pf,
                    tn,
                    td,
                )) by {
                    lemma_opt_covers(other, px, py, pf, tn, td);
                    if covers_point(other, px, py, pf, tn, td) {
                        assert(covers_point(self.elems()[0], px, py, pf, tn, td));
                    }
                    if seq_covers(self.elems(), px, py, pf, tn, td) {
                        let j = choose|j: int|
                            0 <= j < self.elems().len() && covers_point(
                                #[trigger] self.elems()[j],
                                px,
                                py,
                                pf,
                                tn,
                                td,
                            );
                        assert(self.elems()[j] == v);
                    }
                }
                assert(denotes_id(self.elems(), other));
            }
            return ;
        }
        match self.scan_one(other) {
            ScanOutcome::Drop => {
                proof {
                    assert forall|px: int, py: int, pf: int, tn: int, td: int|
                        td >= 1 && covers_point(other, px, py, pf, tn, td) implies seq_covers(
                        old(self).elems(),
                        px,
                        py,
                        pf,
                        tn,
                        td,
                    ) by {
                        assert forall|j: int|
                            0 <= j < old(self).elems().len() implies (#[trigger] old(
                            self,
                        ).elems()[j]).wf() by {}
                        lemma_scan_drop_covered(
                            old(self).elems(),
                            other,
                            0,
                            px,
                            py,
                            pf,
                            tn,
                            td,
                        );
                    }
                    assert(covered_by(old(self).elems(), other));
                }
                return ;
            },
            ScanOutcome::Append => {
                self.optimal_push(other);
                proof {
                    assert forall|px: int, py: int, pf: int, tn: int, td: int|
                        td >= 1 implies (seq_covers(self.elems(), px, py, pf, tn, td) <==> (
                        seq_covers(old(self).elems(), px, py, pf, tn, td) || covers_point(
                            other,
                            px,
                            py,
                            pf,
                            tn,
                            td,
                        ))) by {
                        assert forall|j: int|
                            0 <= j < old(self).elems().len() implies (#[trigger] old(
                            self,
                        ).elems()[j]).wf() by {}
                        lemma_push_covers(old(self).elems(), other, px, py, pf, tn, td);
                    }
                    assert(denotes_union(self.elems(), old(self).elems(), other));
                    assert(covers_superset(self.elems(), old(self).elems()));
                }
                return ;
            },
            ScanOutcome::Split(o) => {
                let mut pending = Self::remainders(o, other);
                let mut fuel: usize = SPLIT_ROUNDS;
                while pending.len() > 0 && fuel > 0
                    invariant
                        self.set_wf(),
                        self.elems().len() >= 1,
                        self.elems().len() >= old(self).elems().len(),
                        covers_superset(self.elems(), old(self).elems()),
                        forall|j: int| 0 <= j < pending@.len() ==> (#[trigger] pending@[j]).wf(),
                    decreases fuel,
                {
                    fuel = fuel - 1;
                    let cur = match pending.pop() {
                        Some(c) => c,
                        None => unreached(),
                    };
                    match self.scan_one(cur) {
                        ScanOutcome::Drop => {},
                        ScanOutcome::Append => {
                            let ghost prev = self.elems();
                            proof {
                                assert(forall|j: int|
                                    0 <= j < prev.len() ==> (#[trigger] prev[j]).wf());
                            }
                            self.optimal_push(cur);
                            proof {
                                assert forall|px: int, py: int, pf: int, tn: int, td: int|
                                    td >= 1 && seq_covers(
                                        old(self).elems(),
                                        px,
                                        py,
                                        pf,
                                        tn,
                                        td,
                                    ) implies seq_covers(self.elems(), px, py, pf, tn, td) by {
                                    lemma_push_covers(prev, cur, px, py, pf, tn, td);
                                    assert(seq_covers(prev, px, py, pf, tn, td));
                                }
                                assert(covers_superset(self.elems(), old(self).elems()));
                            }
                        },
                        ScanOutcome::Split(o2) => {
                            let rs = Self::remainders(o2, cur);
                            let mut j: usize = 0;
                            while j < rs.len()
                                invariant
                                    j <= rs.len(),
                                    forall|m: int|
                                        0 <= m < rs@.len() ==> (#[trigger] rs@[m]).wf(),
                                    forall|m: int|
                                        0 <= m < pending@.len() ==> (
                                        #[trigger] pending@[m]).wf(),
                                decreases rs.len() - j,
                            {
                                let p = rs[j];
                                pending.push(p);
                                j = j + 1;
                            }
                        },
                    }
                }
                while pending.len() > 0
                    invariant
                        self.set_wf(),
                        self.elems().len() >= 1,
                        self.elems().len() >= old(self).elems().len(),
                        covers_superset(self.elems(), old(self).elems()),
                        forall|j: int| 0 <= j < pending@.len() ==> (#[trigger] pending@[j]).wf(),
                    decreases pending.len(),
                {
                    let cur = match pending.pop() {
                        Some(c) => c,
                        None => unreached(),
                    };
                    let ghost prev = self.elems();
                    proof {
                        assert(forall|j: int| 0 <= j < prev.len() ==> (#[trigger] prev[j]).wf());
                    }
                    self.optimal_push(cur);
                    proof {
                        assert forall|px: int, py: int, pf: int, tn: int, td: int|
                            td >= 1 && seq_covers(old(self).elems(), px, py, pf, tn, td) implies
                            seq_covers(self.elems(), px, py, pf, tn, td) by {
                            lemma_push_covers(prev, cur, px, py, pf, tn, td);
                            assert(seq_covers(prev, px, py, pf, tn, td));
                        }
                        assert(covers_superset(self.elems(), old(self).elems()));
                    }
                }
            },
        }
    }

    /// An exact copy of the elements.
    fn copied(&self) -> (r: Self)
        ensures
            r.elems() == self.elems(),
    {
        let mut v: Vec<SpaceTimeId> = Vec::new();
        let mut k: usize = 0;
        while k < self.inner.len()
            invariant
                k <= self.inner.len(),
                v@ == self.inner@.subrange(0, k as int),
            decreases self.inner.len() - k,
        {
            let e = self.inner[k];
            v.push(e);
            proof {
                assert(v@ =~= self.inner@.subrange(0, k as int + 1));
            }
            k = k + 1;
        }
        proof {
            assert(v@ =~= self.inner@);
        }
        SpaceTimeIdSet { inner: v }
    }

    /// The normalized set holding one identifier.
    pub fn from_id(id: SpaceTimeId) -> (r: Self)
        requires
            id.wf(),
        ensures
            r.set_wf(),
            r.elems() =~= seq![spec_opt(id)],
    {
        let mut s = Self::new();
        s.insert(id);
        s
    }

    /// The set denoting the union of both operands' volumes: a copy of
    /// `self` with every element of `other` inserted through the
    /// normalizing insertion.
    pub fn union(&self, other: &Self) -> (r: Self)
        requires
            self.set_wf(),
            other.set_wf(),
        ensures
            r.set_wf(),
            self.elems().len() > 0 || other.elems().len() > 0 ==> r.elems().len() > 0,
            other.elems().len() == 0 ==> r.elems() == self.elems(),
            self.elems().len() == 0 && other.elems().len() == 1 ==> r.elems() =~= seq![
                spec_opt(other.elems()[0]),
            ],
            self.elems().len() > 0 && other.elems().len() == 1 && spec_scan(
                self.elems(),
                other.elems()[0],
                0,
            ) == ScanOutcome::Drop ==> r.elems() == self.elems(),
            self.elems().len() > 0 && other.elems().len() == 1 && spec_scan(
                self.elems(),
                other.elems()[0],
                0,
            ) == ScanOutcome::Append ==> r.elems() == spec_push(self.elems(), other.elems()[0]),
            covers_superset(r.elems(), self.elems()),
            self.elems().len() == 0 && other.elems().len() == 1 ==> denotes_id(
                r.elems(),
                other.elems()[0],
            ),
            self.elems().len() > 0 && other.elems().len() == 1 && spec_scan(
                self.elems(),
                other.elems()[0],
                0,
            ) == ScanOutcome::Append ==> denotes_union(
                r.elems(),
                self.elems(),
                other.elems()[0],
            ),
    {
        let mut r = self.copied();
        let mut k: usize = 0;
        while k < other.inner.len()
            invariant
                k <= other.inner.len(),
                other.set_wf(),
                r.set_wf(),
                r.elems().len() >= self.elems().len(),
                k > 0 ==> r.elems().len() >= 1,
                k == 0 ==> r.elems() == self.elems(),
                covers_superset(r.elems(), self.elems()),
                self.elems().len() == 0 && other.elems().len() == 1 && k == 1 ==> r.elems() =~=
                    seq![spec_opt(other.elems()[0])],
                self.elems().len() > 0 && other.elems().len() == 1 && k == 1 && spec_scan(
                    self.elems(),
                    other.elems()[0],
                    0,
                ) == ScanOutcome::Drop ==> r.elems() == self.elems(),
                self.elems().len() > 0 && other.elems().len() == 1 && k == 1 && spec_scan(
                    self.elems(),
                    other.elems()[0],
                    0,
                ) == ScanOutcome::Append ==> r.elems() == spec_push(
                    self.elems(),
                    other.elems()[0],
                ),
                self.elems().len() == 0 && other.elems().len() == 1 && k == 1 ==> denotes_id(
                    r.elems(),
                    other.elems()[0],
                ),
                self.elems().len() > 0 && other.elems().len() == 1 && k == 1 && spec_scan(
                    self.elems(),
                    other.elems()[0],
                    0,
                ) == ScanOutcome::Append ==> denotes_union(
                    r.elems(),
                    self.elems(),
                    other.elems()[0],
                ),
            decreases other.inner.len() - k,
        {
            let e = other.inner[k];
            proof {
                assert(e == other.elems()[k as int]);
            }
            let ghost prev = r.elems();
            r.insert(e);
            proof {
                assert forall|px: int, py: int, pf: int, tn: int, td: int|
                    td >= 1 && seq_covers(self.elems(), px, py, pf, tn, td) implies seq_covers(
                    r.elems(),
                    px,
                    py,
                    pf,
                    tn,
                    td,
                ) by {
                    assert(seq_covers(prev, px, py, pf, tn, td));
                }
                assert(covers_superset(r.elems(), self.elems()));
            }
            k = k + 1;
        }
        r
    }

    /// The set denoting the volumes covered by both operands at once: every
    /// cross pair's intersection, inserted through the normalizing
    /// insertion. Pairs whose common time resolution exceeds what a slice
    /// count can hold are treated as unrelated.
    pub fn intersect(&self, other: &Self) -> (r: Self)
        requires
            self.set_wf(),
            other.set_wf(),
        ensures
            r.set_wf(),
            self.elems().len() == 0 || other.elems().len() == 0 ==> r.elems().len() == 0,
            self.elems().len() == 1 && other.elems().len() == 1 ==> r.elems()
                == spec_pair_overlap(self.elems()[0], other.elems()[0]),
            self.elems().len() == 1 && other.elems().len() == 1 && lcm_s(
                self.elems()[0].i as nat,
                other.elems()[0].i as nat,
            ) <= u32::MAX as nat ==> denotes_common(
                r.elems(),
                self.elems()[0],
                other.elems()[0],
            ),
    {
        let mut r = Self::new();
        let mut a: usize = 0;
        while a < self.inner.len()
            invariant
                a <= self.inner.len(),
                self.set_wf(),
                other.set_wf(),
                r.set_wf(),
                a == 0 ==> r.elems().len() == 0,
                other.elems().len() == 0 ==> r.elems().len() == 0,
                self.elems().len() == 1 && other.elems().len() == 1 && a == 1 ==> r.elems()
                    == spec_pair_overlap(self.elems()[0], other.elems()[0]),
            decreases self.inner.len() - a,
        {
            let ea = self.inner[a];
            proof {
                assert(ea == self.elems()[a as int]);
            }
            let mut b: usize = 0;
            while b < other.inner.len()
                invariant
                    b <= other.inner.len(),
                    self.set_wf(),
                    other.set_wf(),
                    r.set_wf(),
                    ea.wf(),
                    ea == self.elems()[a as int],
                    a < self.elems().len(),
                    a == 0 && b == 0 ==> r.elems().len() == 0,
                    other.elems().len() == 0 ==> r.elems().len() == 0,
                    self.elems().len() == 1 && other.elems().len() == 1 && a == 0 && b == 1
                        ==> r.elems() == spec_pair_overlap(self.elems()[0], other.elems()[0]),
                decreases other.inner.len() - b,
            {
                let eb = other.inner[b];
                let g = gcd_u32(ea.i, eb.i);
                proof {
                    assert(eb == other.elems()[b as int]);
                    lemma_gcd_divides(ea.i as nat, eb.i as nat);
                }
                let q = ea.i / g;
                proof {
                    assert((q as int) * (eb.i as int) < 0x10000000000000000) by (nonlinear_arith)
                        requires
                            q as int <= 0xFFFFFFFF,
                            eb.i as int <= 0xFFFFFFFF,
                    ;
                }
                let l64 = (q as u64) * (eb.i as u64);
                if l64 <= 0xFFFF_FFFFu64 {
                    proof {
                        assert(lcm_s(ea.i as nat, eb.i as nat) == l64 as nat);
                    }
                    match ea.containment_relation(&eb) {
                        Containment::Full => {
                            r.insert(eb);
                        },
                        Containment::Partial(o) => {
                            r.insert(o);
                        },
                        Containment::Disjoint => {},
                    }
                }
                b = b + 1;
            }
            a = a + 1;
        }
        proof {
            if self.elems().len() == 1 && other.elems().len() == 1 && lcm_s(
                self.elems()[0].i as nat,
                other.elems()[0].i as nat,
            ) <= u32::MAX as nat {
                assert forall|px: int, py: int, pf: int, tn: int, td: int| td >= 1 implies (
                seq_covers(r.elems(), px, py, pf, tn, td) <==> (covers_point(
                    self.elems()[0],
                    px,
                    py,
                    pf,
                    tn,
                    td,
                ) && covers_point(other.elems()[0], px, py, pf, tn, td))) by {
                    assert(self.elems()[0].wf());
                    assert(other.elems()[0].wf());
                    lemma_pair_overlap_covers(
                        self.elems()[0],
                        other.elems()[0],
                        px,
                        py,
                        pf,
                        tn,
                        td,
                    );
                }
                assert(denotes_common(r.elems(), self.elems()[0], other.elems()[0]));
            }
        }
        r
    }

    /// The identifier naming the whole representable universe: zoom `0`,
    /// one time slice, every axis unbounded.
    pub fn universe() -> (r: SpaceTimeId)
        ensures
            r.wf(),
            r == spec_universe(),
    {
        SpaceTimeId { z: 0, f: DR::Any, x: DR::Any, y: DR::Any, i: 1, t: DR::Any }
    }

    /// The set denoting the representable universe minus the volumes of
    /// `self`: the normalized intersection of every element's complement
    /// decomposition.
    pub fn complement(&self) -> (r: Self)
        requires
            self.set_wf(),
        ensures
            r.set_wf(),
            self.elems().len() == 0 ==> r.elems() == seq![spec_universe()],
    {
        let mut r = Self::new();
        if self.inner.len() == 0 {
            r.insert(Self::universe());
            proof {
                assert(spec_opt(spec_universe()) == spec_universe());
                assert(r.elems() =~= seq![spec_universe()]);
            }
            return r;
        }
        let e0 = self.inner[0];
        proof {
            assert(e0 == self.elems()[0]);
        }
        let first = Self::complement_pieces(e0);
        let mut j: usize = 0;
        while j < first.len()
            invariant
                j <= first.len(),
                r.set_wf(),
                forall|m: int| 0 <= m < first@.len() ==> (#[trigger] first@[m]).wf(),
            decreases first.len() - j,
        {
            let p = first[j];
            r.insert(p);
            j = j + 1;
        }
        let mut k: usize = 1;
        while k < self.inner.len()
            invariant
                k <= self.inner.len(),
                self.set_wf(),
                r.set_wf(),
            decreases self.inner.len() - k,
        {
            let ek = self.inner[k];
            proof {
                assert(ek == self.elems()[k as int]);
            }
            let pieces = Self::complement_pieces(ek);
            let mut pc = Self::new();
            let mut j2: usize = 0;
            while j2 < pieces.len()
                invariant
                    j2 <= pieces.len(),
                    pc.set_wf(),
                    forall|m: int| 0 <= m < pieces@.len() ==> (#[trigger] pieces@[m]).wf(),
                decreases pieces.len() - j2,
            {
                let p = pieces[j2];
                pc.insert(p);
                j2 = j2 + 1;
            }
            r = r.intersect(&pc);
            k = k + 1;
        }
        r
    }
}

/// The first collection denotes exactly the union of the second's volume
/// and the identifier's volume.
pub open spec fn denotes_union(r: Seq<SpaceTimeId>, s: Seq<SpaceTimeId>, o: SpaceTimeId) -> bool {
    forall|px: int, py: int, pf: int, tn: int, td: int|
        td >= 1 ==> (seq_covers(r, px, py, pf, tn, td) <==> (seq_covers(s, px, py, pf, tn, td)
            || covers_point(o, px, py, pf, tn, td)))
}

/// The collection denotes exactly the identifier's volume.
pub open spec fn denotes_id(r: Seq<SpaceTimeId>, o: SpaceTimeId) -> bool {
    forall|px: int, py: int, pf: int, tn: int, td: int|
        td >= 1 ==> (seq_covers(r, px, py, pf, tn, td) <==> covers_point(o, px, py, pf, tn, td))
}

/// The collection denotes exactly the volume common to both identifiers.
pub open spec fn denotes_common(r: Seq<SpaceTimeId>, a: SpaceTimeId, b: SpaceTimeId) -> bool {
    forall|px: int, py: int, pf: int, tn: int, td: int|
        td >= 1 ==> (seq_covers(r, px, py, pf, tn, td) <==> (covers_point(a, px, py, pf, tn, td)
            && covers_point(b, px, py, pf, tn, td)))
}

/// Every point of the identifier's volume is covered by the collection.
pub open spec fn covered_by(s: Seq<SpaceTimeId>, o: SpaceTimeId) -> bool {
    forall|px: int, py: int, pf: int, tn: int, td: int|
        td >= 1 && covers_point(o, px, py, pf, tn, td) ==> seq_covers(s, px, py, pf, tn, td)
}

/// Every point the second collection covers, the first covers too.
pub open spec fn covers_superset(r: Seq<SpaceTimeId>, s: Seq<SpaceTimeId>) -> bool {
    forall|px: int, py: int, pf: int, tn: int, td: int|
        td >= 1 && seq_covers(s, px, py, pf, tn, td) ==> seq_covers(r, px, py, pf, tn, td)
}

/// Some element covers the point.
pub open spec fn seq_covers(
    s: Seq<SpaceTimeId>,
    px: int,
    py: int,
    pf: int,
    tn: int,
    td: int,
) -> bool {
    exists|k: int| 0 <= k < s.len() && covers_point(#[trigger] s[k], px, py, pf, tn, td)
}

/// Absorption is sound: when the scan of a collection of well-formed
/// identifiers ends in `Drop`, the dropped identifier was already covered —
/// every point it covers is covered by some element, so leaving the
/// collection untouched loses no volume.
pub proof fn lemma_scan_drop_covered(
    s: Seq<SpaceTimeId>,
    cur: SpaceTimeId,
    k: int,
    px: int,
    py: int,
    pf: int,
    tn: int,
    td: int,
)
    requires
        forall|j: int| 0 <= j < s.len() ==> (#[trigger] s[j]).wf(),
        cur.wf(),
        0 <= k,
        spec_scan(s, cur, k) == ScanOutcome::Drop,
        td >= 1,
        covers_point(cur, px, py, pf, tn, td),
    ensures
        seq_covers(s, px, py, pf, tn, td),
    decreases s.len() - k,
{
    if k >= s.len() {
    } else if lcm_s(s[k].i as nat, cur.i as nat) <= u32::MAX as nat {
        match spec_classify(s[k], cur) {
            Containment::Full => {
                crate::contain::lemma_classify_full_covers(s[k], cur, px, py, pf, tn, td);
                assert(0 <= k < s.len() && covers_point(s[k], px, py, pf, tn, td));
            },
            Containment::Partial(_) => {},
            Containment::Disjoint => {
                lemma_scan_drop_covered(s, cur, k + 1, px, py, pf, tn, td);
            },
        }
    } else {
        lemma_scan_drop_covered(s, cur, k + 1, px, py, pf, tn, td);
    }
}

/// A split is sound: when the scan of a collection of well-formed
/// identifiers ends in `Split(o)`, some element classifies the identifier as
/// a partial overlap with `o` at a representable common time resolution, and
/// every point `o` covers is covered both by the collection and by the
/// identifier.
pub proof fn lemma_scan_split_overlap(
    s: Seq<SpaceTimeId>,
    cur: SpaceTimeId,
    o: SpaceTimeId,
    k: int,
    px: int,
    py: int,
    pf: int,
    tn: int,
    td: int,
)
    requires
        forall|j: int| 0 <= j < s.len() ==> (#[trigger] s[j]).wf(),
        cur.wf(),
        0 <= k,
        spec_scan(s, cur, k) == ScanOutcome::Split(o),
        td >= 1,
    ensures
        exists|j: int|
            0 <= j < s.len() && lcm_s((#[trigger] s[j]).i as nat, cur.i as nat)
                <= u32::MAX as nat && spec_classify(s[j], cur) == Containment::Partial(o),
        covers_point(o, px, py, pf, tn, td) ==> (seq_covers(s, px, py, pf, tn, td)
            && covers_point(cur, px, py, pf, tn, td)),
    decreases s.len() - k,
{
    if k >= s.len() {
    } else if lcm_s(s[k].i as nat, cur.i as nat) <= u32::MAX as nat {
        match spec_classify(s[k], cur) {
            Containment::Full => {},
            Containment::Partial(_) => {
                crate::contain::lemma_classify_partial_covers(s[k], cur, o, px, py, pf, tn, td);
                if covers_point(o, px, py, pf, tn, td) {
                    assert(covers_point(s[k], px, py, pf, tn, td));
                }
            },
            Containment::Disjoint => {
                lemma_scan_split_overlap(s, cur, o, k + 1, px, py, pf, tn, td);
            },
        }
    } else {
        lemma_scan_split_overlap(s, cur, o, k + 1, px, py, pf, tn, td);
    }
}

/// A single-pair intersection denotes exactly the common volume, whenever
/// the pair's common time resolution is representable.
pub proof fn lemma_pair_overlap_covers(
    a: SpaceTimeId,
    b: SpaceTimeId,
    px: int,
    py: int,
    pf: int,
    tn: int,
    td: int,
)
    requires
        a.wf(),
        b.wf(),
        lcm_s(a.i as nat, b.i as nat) <= u32::MAX as nat,
        td >= 1,
    ensures
        seq_covers(spec_pair_overlap(a, b), px, py, pf, tn, td) <==> (covers_point(
            a,
            px,
            py,
            pf,
            tn,
            td,
        ) && covers_point(b, px, py, pf, tn, td)),
{
    match spec_classify(a, b) {
        Containment::Full => {
            let r = spec_pair_overlap(a, b);
            lemma_opt_covers(b, px, py, pf, tn, td);
            if covers_point(b, px, py, pf, tn, td) {
                crate::contain::lemma_classify_full_covers(a, b, px, py, pf, tn, td);
                assert(covers_point(r[0], px, py, pf, tn, td));
            }
            if seq_covers(r, px, py, pf, tn, td) {
                let j = choose|j: int|
                    0 <= j < r.len() && covers_point(#[trigger] r[j], px, py, pf, tn, td);
                assert(r[j] == spec_opt(b));
            }
        },
        Containment::Partial(o) => {
            let r = spec_pair_overlap(a, b);
            crate::contain::lemma_classify_partial_covers(a, b, o, px, py, pf, tn, td);
            lemma_opt_covers(o, px, py, pf, tn, td);
            if covers_point(o, px, py, pf, tn, td) {
                assert(covers_point(r[0], px, py, pf, tn, td));
            }
            if seq_covers(r, px, py, pf, tn, td) {
                let j = choose|j: int|
                    0 <= j < r.len() && covers_point(#[trigger] r[j], px, py, pf, tn, td);
                assert(r[j] == spec_opt(o));
            }
        },
        Containment::Disjoint => {
            if covers_point(a, px, py, pf, tn, td) {
                crate::contain::lemma_classify_disjoint_covers(a, b, px, py, pf, tn, td);
            }
        },
    }
}

/// Resolution optimality: every element of a normalized set is at a fixed
/// point of both optimizers — its zoom admits no lossless halving, and its
/// slice count shares no factor with its slice numbers, so neither its zoom
/// nor its time resolution can be decreased while keeping its volume.
pub proof fn lemma_elements_resolution_optimal(s: SpaceTimeIdSet, k: int)
    requires
        s.set_wf(),
        0 <= k < s.elems().len(),
    ensures
        reduced_zoom(s.elems()[k]),
        reduced_time(s.elems()[k]),
{
}

/// The coarsest-zoom presentation is a fixed point: it admits no further
/// halving, and it leaves the time axis untouched.
pub proof fn lemma_optimal_z_fixed_point(id: SpaceTimeId)
    ensures
        reduced_zoom(spec_optimal_z(id)),
        spec_optimal_z(id).i == id.i,
        spec_optimal_z(id).t == id.t,
        spec_optimal_z(id).z <= id.z,
    decreases id.z,
{
    if can_halve_all(id) {
        lemma_optimal_z_fixed_point(halved(id));
    }
}

/// Zoom optimization is lossless on every spatial axis: a cell at the
/// original zoom is covered exactly when the cell it falls into at the
/// optimized zoom is covered.
pub proof fn lemma_optimal_z_lossless(id: SpaceTimeId, vx: int, vy: int, vf: int)
    requires
        id.wf(),
        0 <= vx <= pow2(id.z as nat) - 1,
        0 <= vy <= pow2(id.z as nat) - 1,
        -(pow2(id.z as nat) as int) <= vf <= pow2(id.z as nat) - 1,
    ensures
        ({
            let o = spec_optimal_z(id);
            let d = pow2((id.z - o.z) as nat) as int;
            &&& (covers(dr_int_u64(id.x), 0, pow2(id.z as nat) - 1, vx) <==> covers(
                dr_int_u64(o.x),
                0,
                pow2(o.z as nat) - 1,
                vx / d,
            ))
            &&& (covers(dr_int_u64(id.y), 0, pow2(id.z as nat) - 1, vy) <==> covers(
                dr_int_u64(o.y),
                0,
                pow2(o.z as nat) - 1,
                vy / d,
            ))
            &&& (covers(dr_int_i64(id.f), -(pow2(id.z as nat) as int), pow2(id.z as nat) - 1, vf)
                <==> covers(
                dr_int_i64(o.f),
                -(pow2(o.z as nat) as int),
                pow2(o.z as nat) - 1,
                vf / d,
            ))
        }),
    decreases id.z,
{
    lemma_optimal_z_fixed_point(id);
    let o = spec_optimal_z(id);
    if can_halve_all(id) {
        let h = halved(id);
        let p = pow2((id.z - 1) as nat) as int;
        lemma_halved_wf(id);
        lemma_optimal_z_fixed_point(h);
        lemma_pow2_adds((id.z - 1) as nat, 1);
        lemma2_to64();
        lemma_pow2_pos((id.z - 1) as nat);
        lemma_halve_covers_u64(id.x, p, vx);
        lemma_halve_covers_u64(id.y, p, vy);
        lemma_halve_covers_i64(id.f, p, vf);
        lemma_optimal_z_lossless(h, vx / 2, vy / 2, vf / 2);
        let dh = pow2((h.z - o.z) as nat) as int;
        lemma_pow2_pos((h.z - o.z) as nat);
        lemma_pow2_adds(1, (h.z - o.z) as nat);
        crate::num::lemma_div_twice(vx, 2, dh);
        crate::num::lemma_div_twice(vy, 2, dh);
        crate::num::lemma_div_twice(vf, 2, dh);
        assert(pow2((id.z - o.z) as nat) as int == 2 * dh);
    } else {
        lemma2_to64();
        vstd::arithmetic::div_mod::lemma_div_basics(vx);
        vstd::arithmetic::div_mod::lemma_div_basics(vy);
        vstd::arithmetic::div_mod::lemma_div_basics(vf);
    }
}

/// Rescaled back to the original zoom, the optimized identifier has exactly
/// the original cell bounds on every spatial axis.
pub proof fn lemma_optimal_z_exact_frame(id: SpaceTimeId)
    requires
        id.wf(),
    ensures
        ({
            let o = spec_optimal_z(id);
            &&& frame_lo_u64(o.x, o.z, id.z) == lo_of(dr_int_u64(id.x), 0, pow2(id.z as nat) - 1)
            &&& frame_hi_u64(o.x, o.z, id.z) == hi_of(dr_int_u64(id.x), 0, pow2(id.z as nat) - 1)
            &&& frame_lo_u64(o.y, o.z, id.z) == lo_of(dr_int_u64(id.y), 0, pow2(id.z as nat) - 1)
            &&& frame_hi_u64(o.y, o.z, id.z) == hi_of(dr_int_u64(id.y), 0, pow2(id.z as nat) - 1)
            &&& frame_lo_i64(o.f, o.z, id.z) == lo_of(
                dr_int_i64(id.f),
                -(pow2(id.z as nat) as int),
                pow2(id.z as nat) - 1,
            )
            &&& frame_hi_i64(o.f, o.z, id.z) == hi_of(
                dr_int_i64(id.f),
                -(pow2(id.z as nat) as int),
                pow2(id.z as nat) - 1,
            )
        }),
    decreases id.z,
{
    lemma_optimal_z_fixed_point(id);
    let o = spec_optimal_z(id);
    lemma2_to64();
    if can_halve_all(id) {
        let h = halved(id);
        let p = pow2((id.z - 1) as nat) as int;
        lemma_halved_wf(id);
        lemma_optimal_z_fixed_point(h);
        lemma_pow2_adds((id.z - 1) as nat, 1);
        lemma_pow2_pos((id.z - 1) as nat);
        lemma_optimal_z_exact_frame(h);
        lemma_pow2_adds((h.z - o.z) as nat, 1);
        let dh = pow2((h.z - o.z) as nat) as int;
        assert(pow2((id.z - o.z) as nat) as int == dh * 2);
        assert(o == spec_optimal_z(h));
        assert(pow2(h.z as nat) as int == p);
        assert(pow2(id.z as nat) as int == 2 * p);
        lemma_fundamental_div_mod(lo_of(dr_int_u64(id.x), 0, 2 * p - 1), 2);
        lemma_fundamental_div_mod(hi_of(dr_int_u64(id.x), 0, 2 * p - 1), 2);
        lemma_fundamental_div_mod(lo_of(dr_int_u64(id.y), 0, 2 * p - 1), 2);
        lemma_fundamental_div_mod(hi_of(dr_int_u64(id.y), 0, 2 * p - 1), 2);
        lemma_fundamental_div_mod(lo_of(dr_int_i64(id.f), -(2 * p), 2 * p - 1), 2);
        lemma_fundamental_div_mod(hi_of(dr_int_i64(id.f), -(2 * p), 2 * p - 1), 2);
        assert(lo_of(dr_int_u64(h.x), 0, p - 1) * 2 == lo_of(dr_int_u64(id.x), 0, 2 * p - 1));
        assert((hi_of(dr_int_u64(h.x), 0, p - 1) + 1) * 2 - 1 == hi_of(
            dr_int_u64(id.x),
            0,
            2 * p - 1,
        ));
        assert(lo_of(dr_int_u64(h.y), 0, p - 1) * 2 == lo_of(dr_int_u64(id.y), 0, 2 * p - 1));
        assert((hi_of(dr_int_u64(h.y), 0, p - 1) + 1) * 2 - 1 == hi_of(
            dr_int_u64(id.y),
            0,
            2 * p - 1,
        ));
        assert(lo_of(dr_int_i64(h.f), -p, p - 1) * 2 == lo_of(dr_int_i64(id.f), -(2 * p), 2 * p
            - 1));
        assert((hi_of(dr_int_i64(h.f), -p, p - 1) + 1) * 2 - 1 == hi_of(
            dr_int_i64(id.f),
            -(2 * p),
            2 * p - 1,
        ));
        assert(frame_lo_u64(o.x, o.z, id.z) == frame_lo_u64(o.x, o.z, h.z) * 2
            && frame_hi_u64(o.x, o.z, id.z) == (frame_hi_u64(o.x, o.z, h.z) + 1) * 2 - 1
            && frame_lo_u64(o.y, o.z, id.z) == frame_lo_u64(o.y, o.z, h.z) * 2
            && frame_hi_u64(o.y, o.z, id.z) == (frame_hi_u64(o.y, o.z, h.z) + 1) * 2 - 1
            && frame_lo_i64(o.f, o.z, id.z) == frame_lo_i64(o.f, o.z, h.z) * 2
            && frame_hi_i64(o.f, o.z, id.z) == (frame_hi_i64(o.f, o.z, h.z) + 1) * 2 - 1)
            by (nonlinear_arith)
            requires
                pow2((id.z - o.z) as nat) as int == dh * 2,
                dh == pow2((h.z - o.z) as nat) as int,
                frame_lo_u64(o.x, o.z, id.z) == lo_of(
                    dr_int_u64(o.x),
                    0,
                    pow2(o.z as nat) - 1,
                ) * (dh * 2),
                frame_lo_u64(o.x, o.z, h.z) == lo_of(dr_int_u64(o.x), 0, pow2(o.z as nat) - 1)
                    * dh,
                frame_hi_u64(o.x, o.z, id.z) == (hi_of(dr_int_u64(o.x), 0, pow2(o.z as nat) - 1)
                    + 1) * (dh * 2) - 1,
                frame_hi_u64(o.x, o.z, h.z) == (hi_of(dr_int_u64(o.x), 0, pow2(o.z as nat) - 1)
                    + 1) * dh - 1,
                frame_lo_u64(o.y, o.z, id.z) == lo_of(
                    dr_int_u64(o.y),
                    0,
                    pow2(o.z as nat) - 1,
                ) * (dh * 2),
                frame_lo_u64(o.y, o.z, h.z) == lo_of(dr_int_u64(o.y), 0, pow2(o.z as nat) - 1)
                    * dh,
                frame_hi_u64(o.y, o.z, id.z) == (hi_of(dr_int_u64(o.y), 0, pow2(o.z as nat) - 1)
                    + 1) * (dh * 2) - 1,
                frame_hi_u64(o.y, o.z, h.z) == (hi_of(dr_int_u64(o.y), 0, pow2(o.z as nat) - 1)
                    + 1) * dh - 1,
                frame_lo_i64(o.f, o.z, id.z) == lo_of(
                    dr_int_i64(o.f),
                    -(pow2(o.z as nat) as int),
                    pow2(o.z as nat) - 1,
                ) * (dh * 2),
                frame_lo_i64(o.f, o.z, h.z) == lo_of(
                    dr_int_i64(o.f),
                    -(pow2(o.z as nat) as int),
                    pow2(o.z as nat) - 1,
                ) * dh,
                frame_hi_i64(o.f, o.z, id.z) == (hi_of(
                    dr_int_i64(o.f),
                    -(pow2(o.z as nat) as int),
                    pow2(o.z as nat) - 1,
                ) + 1) * (dh * 2) - 1,
                frame_hi_i64(o.f, o.z, h.z) == (hi_of(
                    dr_int_i64(o.f),
                    -(pow2(o.z as nat) as int),
                    pow2(o.z as nat) - 1,
                ) + 1) * dh - 1,
        ;
    } else {
        assert(frame_lo_u64(o.x, o.z, id.z) == lo_of(
            dr_int_u64(id.x),
            0,
            pow2(id.z as nat) - 1,
        ) * pow2(0));
        assert(frame_hi_u64(o.x, o.z, id.z) == (hi_of(
            dr_int_u64(id.x),
            0,
            pow2(id.z as nat) - 1,
        ) + 1) * pow2(0) - 1);
        assert(frame_lo_u64(o.y, o.z, id.z) == lo_of(
            dr_int_u64(id.y),
            0,
            pow2(id.z as nat) - 1,
        ) * pow2(0));
        assert(frame_hi_u64(o.y, o.z, id.z) == (hi_of(
            dr_int_u64(id.y),
            0,
            pow2(id.z as nat) - 1,
        ) + 1) * pow2(0) - 1);
        assert(frame_lo_i64(o.f, o.z, id.z) == lo_of(
            dr_int_i64(id.f),
            -(pow2(id.z as nat) as int),
            pow2(id.z as nat) - 1,
        ) * pow2(0));
        assert(frame_hi_i64(o.f, o.z, id.z) == (hi_of(
            dr_int_i64(id.f),
            -(pow2(id.z as nat) as int),
            pow2(id.z as nat) - 1,
        ) + 1) * pow2(0) - 1);
    }
}

/// Time-unit reduction is lossless: the reduced slice numbers name the same
/// fractions of the epoch, witnessed by cross-multiplication with the old
/// and new slice counts. Open-ended time shapes stay untouched.
pub proof fn lemma_optimal_i_lossless(id: SpaceTimeId)
    requires
        id.wf(),
    ensures
        ({
            let o = spec_optimal_i(id);
            &&& o.i >= 1
            &&& o.i <= id.i
            &&& match (time_nums(id), time_nums(o)) {
                (Option::Some(n), Option::Some(m)) => m.0 * id.i as int == n.0 * o.i as int
                    && m.1 * id.i as int == n.1 * o.i as int,
                (Option::None, Option::None) => o == id,
                _ => false,
            }
        }),
{
    match time_nums(id) {
        Option::None => {},
        Option::Some((n1, n2)) => {
            assert(0 <= n1 && n1 < n2 && n2 <= id.i);
            let d0 = gcd_s(gcd_s(n1 as nat, n2 as nat), id.i as nat);
            lemma_optimal_i_divisors(n1 as nat, n2 as nat, id.i as nat);
            if d0 <= 1 {
            } else {
                let d = d0 as int;
                lemma_fundamental_div_mod(n1, d);
                lemma_fundamental_div_mod(n2, d);
                lemma_fundamental_div_mod(id.i as int, d);
                let q1 = n1 / d;
                let q2 = n2 / d;
                let qi = id.i as int / d;
                assert(0 <= q1 && q1 < q2 && q2 <= qi && 1 <= qi && q2 <= n2)
                    by (nonlinear_arith)
                    requires
                        n1 == d * q1,
                        n2 == d * q2,
                        id.i as int == d * qi,
                        0 <= n1 < n2,
                        n2 <= id.i,
                        id.i >= 1,
                        d >= 2,
                        q1 >= 0,
                        q2 >= 0,
                        qi >= 0,
                ;
                assert(q1 * id.i as int == n1 * qi && q2 * id.i as int == n2 * qi)
                    by (nonlinear_arith)
                    requires
                        n1 == d * q1,
                        n2 == d * q2,
                        id.i as int == d * qi,
                ;
            }
        },
    }
}

/// Zoom optimization keeps the identifier well-formed.
pub proof fn lemma_optimal_z_wf(id: SpaceTimeId)
    requires
        id.wf(),
    ensures
        spec_optimal_z(id).wf(),
    decreases id.z,
{
    if can_halve_all(id) {
        lemma_halved_wf(id);
        lemma_optimal_z_wf(halved(id));
    }
}

/// Time-unit reduction keeps the identifier well-formed.
pub proof fn lemma_optimal_i_wf(id: SpaceTimeId)
    requires
        id.wf(),
    ensures
        spec_optimal_i(id).wf(),
{
    match time_nums(id) {
        Option::None => {},
        Option::Some((n1, n2)) => {
            assert(0 <= n1 && n1 < n2 && n2 <= id.i);
            let d0 = gcd_s(gcd_s(n1 as nat, n2 as nat), id.i as nat);
            lemma_optimal_i_divisors(n1 as nat, n2 as nat, id.i as nat);
            if d0 <= 1 {
            } else {
                let d = d0 as int;
                lemma_fundamental_div_mod(n1, d);
                lemma_fundamental_div_mod(n2, d);
                lemma_fundamental_div_mod(id.i as int, d);
                let q1 = n1 / d;
                let q2 = n2 / d;
                let qi = id.i as int / d;
                assert(0 <= q1 && q1 < q2 && q2 <= qi && 1 <= qi && q1 <= n1 && q2 <= n2)
                    by (nonlinear_arith)
                    requires
                        n1 == d * q1,
                        n2 == d * q2,
                        id.i as int == d * qi,
                        0 <= n1 < n2,
                        n2 <= id.i,
                        id.i >= 1,
                        d >= 2,
                ;
            }
        },
    }
}

/// Time-unit reduction preserves point coverage: the rewritten identifier
/// covers exactly the points the original covers.
pub proof fn lemma_optimal_i_covers(
    id: SpaceTimeId,
    px: int,
    py: int,
    pf: int,
    tn: int,
    td: int,
)
    requires
        id.wf(),
        td >= 1,
    ensures
        covers_point(spec_optimal_i(id), px, py, pf, tn, td) <==> covers_point(
            id,
            px,
            py,
            pf,
            tn,
            td,
        ),
{
    let w = spec_optimal_i(id);
    lemma_optimal_i_lossless(id);
    match time_nums(id) {
        Option::None => {},
        Option::Some((n1, n2)) => {
            let lo = lo_of(dr_int_u32(id.t), 0, id.i - 1);
            let hi = hi_of(dr_int_u32(id.t), 0, id.i - 1);
            assert(n1 == lo && n2 == hi + 1);
            if w == id {
            } else {
                let wlo = lo_of(dr_int_u32(w.t), 0, w.i - 1);
                let whi = hi_of(dr_int_u32(w.t), 0, w.i - 1);
                assert(time_nums(w) == Option::Some((wlo, whi + 1)));
                assert((wlo * td <= tn * (w.i as int) && tn * (w.i as int) < (whi + 1) * td)
                    <==> (lo * td <= tn * (id.i as int) && tn * (id.i as int) < (hi + 1) * td))
                    by (nonlinear_arith)
                    requires
                        wlo * (id.i as int) == lo * (w.i as int),
                        (whi + 1) * (id.i as int) == (hi + 1) * (w.i as int),
                        id.i >= 1,
                        w.i >= 1,
                        td >= 1,
                ;
            }
        },
    }
}

/// Zoom optimization preserves point coverage: the coarser identifier
/// covers exactly the points the original covers.
pub proof fn lemma_optimal_z_covers(
    w: SpaceTimeId,
    px: int,
    py: int,
    pf: int,
    tn: int,
    td: int,
)
    requires
        w.wf(),
        td >= 1,
    ensures
        covers_point(spec_optimal_z(w), px, py, pf, tn, td) <==> covers_point(
            w,
            px,
            py,
            pf,
            tn,
            td,
        ),
{
    let o = spec_optimal_z(w);
    lemma_optimal_z_fixed_point(w);
    lemma_optimal_z_wf(w);
    let dw = pow2((MAX_ZOOM - w.z) as nat) as int;
    let dn = pow2((MAX_ZOOM - o.z) as nat) as int;
    let dz = pow2((w.z - o.z) as nat) as int;
    lemma_pow2_adds((MAX_ZOOM - w.z) as nat, (w.z - o.z) as nat);
    lemma_pow2_pos((MAX_ZOOM - w.z) as nat);
    lemma_pow2_pos((MAX_ZOOM - o.z) as nat);
    lemma_pow2_pos((w.z - o.z) as nat);
    lemma_pow2_pos(w.z as nat);
    lemma_pow2_pos(o.z as nat);
    lemma_pow2_adds(w.z as nat, (MAX_ZOOM - w.z) as nat);
    lemma_pow2_adds(o.z as nat, (MAX_ZOOM - o.z) as nat);
    assert(dn == dw * dz);
    lemma_div_twice(px, dw, dz);
    lemma_div_twice(py, dw, dz);
    lemma_div_twice(pf, dw, dz);
    let wmax = pow2(w.z as nat) - 1;
    let omax = pow2(o.z as nat) - 1;
    lemma_covers_bounds(dr_int_u64(w.x), 0, wmax);
    lemma_covers_bounds(dr_int_u64(w.y), 0, wmax);
    lemma_covers_bounds(dr_int_i64(w.f), -(wmax + 1), wmax);
    lemma_covers_bounds(dr_int_u64(o.x), 0, omax);
    lemma_covers_bounds(dr_int_u64(o.y), 0, omax);
    lemma_covers_bounds(dr_int_i64(o.f), -(omax + 1), omax);
    lemma_div_within(px, dn, 0, omax);
    lemma_div_within(py, dn, 0, omax);
    lemma_div_within(pf, dn, -(omax + 1), omax);
    lemma_div_within(px, dw, 0, wmax);
    lemma_div_within(py, dw, 0, wmax);
    lemma_div_within(pf, dw, -(wmax + 1), wmax);
    assert((omax + 1) * dn == (wmax + 1) * dw && (-(omax + 1)) * dn == (-(wmax + 1)) * dw)
        by (nonlinear_arith)
        requires
            (omax + 1) * dn == pow2(MAX_ZOOM as nat),
            (wmax + 1) * dw == pow2(MAX_ZOOM as nat),
    ;
    if covers_point(w, px, py, pf, tn, td) {
        lemma_optimal_z_lossless(w, px / dw, py / dw, pf / dw);
    }
    if covers_point(o, px, py, pf, tn, td) {
        lemma_optimal_z_lossless(w, px / dw, py / dw, pf / dw);
    }
}

/// What insertion stores covers exactly what came in: re-optimization to the
/// coarsest exact resolutions changes no point of the covered volume.
pub proof fn lemma_opt_covers(id: SpaceTimeId, px: int, py: int, pf: int, tn: int, td: int)
    requires
        id.wf(),
        td >= 1,
    ensures
        spec_opt(id).wf(),
        covers_point(spec_opt(id), px, py, pf, tn, td) <==> covers_point(
            id,
            px,
            py,
            pf,
            tn,
            td,
        ),
{
    lemma_optimal_i_wf(id);
    lemma_optimal_i_covers(id, px, py, pf, tn, td);
    lemma_optimal_z_wf(spec_optimal_i(id));
    lemma_optimal_z_covers(spec_optimal_i(id), px, py, pf, tn, td);
}

/// An adjacency merge of two time intervals covers an epoch instant exactly
/// when one of the operands covers it, also under the rational reading of
/// slice numbers against the slice count.
proof fn lemma_time_merge_covers(
    ea: DimensionRange<u32>,
    ob: DimensionRange<u32>,
    mm: DimensionRange<int>,
    i: u32,
    tn: int,
    td: int,
)
    requires
        i >= 1,
        td >= 1,
        within_domain(dr_int_u32(ea), 0, i - 1),
        within_domain(dr_int_u32(ob), 0, i - 1),
        spec_try_merge(dr_int_u32(ea), dr_int_u32(ob)) == Ok::<
            Option<DimensionRange<int>>,
            MergeError,
        >(Some(mm)),
    ensures
        within_domain(mm, 0, i - 1),
        (lo_of(mm, 0, i - 1) * td <= tn * (i as int) && tn * (i as int) < (hi_of(mm, 0, i - 1)
            + 1) * td) <==> ((lo_of(dr_int_u32(ea), 0, i - 1) * td <= tn * (i as int) && tn * (
        i as int) < (hi_of(dr_int_u32(ea), 0, i - 1) + 1) * td) || (lo_of(
            dr_int_u32(ob),
            0,
            i - 1,
        ) * td <= tn * (i as int) && tn * (i as int) < (hi_of(dr_int_u32(ob), 0, i - 1) + 1)
            * td)),
{
    lemma_merge_covers_union(dr_int_u32(ea), dr_int_u32(ob), mm, 0, i - 1);
    lemma_covers_bounds(dr_int_u32(ea), 0, i - 1);
    lemma_covers_bounds(dr_int_u32(ob), 0, i - 1);
    lemma_covers_bounds(mm, 0, i - 1);
    let lm = lo_of(mm, 0, i - 1);
    let hm = hi_of(mm, 0, i - 1);
    let le = lo_of(dr_int_u32(ea), 0, i - 1);
    let he = hi_of(dr_int_u32(ea), 0, i - 1);
    let lb = lo_of(dr_int_u32(ob), 0, i - 1);
    let hb = hi_of(dr_int_u32(ob), 0, i - 1);
    assert(covers(dr_int_u32(ea), 0, i - 1, le) && covers(dr_int_u32(ea), 0, i - 1, he));
    assert(covers(dr_int_u32(ob), 0, i - 1, lb) && covers(dr_int_u32(ob), 0, i - 1, hb));
    assert(lm <= le && he <= hm && lm <= lb && hb <= hm);
    lemma_fundamental_div_mod(tn * (i as int), td);
    let v = tn * (i as int) / td;
    lemma_div_within(tn * (i as int), td, lm, hm);
    lemma_div_within(tn * (i as int), td, le, he);
    lemma_div_within(tn * (i as int), td, lb, hb);
    if lm * td <= tn * (i as int) && tn * (i as int) < (hm + 1) * td {
        assert(lm <= v && v <= hm);
        assert(covers(mm, 0, i - 1, v));
        assert(covers(dr_int_u32(ea), 0, i - 1, v) || covers(dr_int_u32(ob), 0, i - 1, v));
    }
}

/// A continuity merge covers a point exactly when one of its operands does.
proof fn lemma_merge_candidate_covers(
    e: SpaceTimeId,
    o: SpaceTimeId,
    m: SpaceTimeId,
    px: int,
    py: int,
    pf: int,
    tn: int,
    td: int,
)
    requires
        e.wf(),
        o.wf(),
        spec_merge_candidate(e, o) == Some(m),
        td >= 1,
    ensures
        m.wf(),
        covers_point(m, px, py, pf, tn, td) <==> (covers_point(e, px, py, pf, tn, td)
            || covers_point(o, px, py, pf, tn, td)),
{
    lemma_pow2_pos(e.z as nat);
    lemma_pow2_pos((MAX_ZOOM - e.z) as nat);
    let pmax = pow2(e.z as nat) - 1;
    let mx = e.x == o.x;
    let my = e.y == o.y;
    let mf = e.f == o.f;
    let mt = e.t == o.t;
    if !mx && my && mf && mt {
        match spec_try_merge(dr_int_u64(e.x), dr_int_u64(o.x)) {
            Ok(Some(mm)) => {
                lemma_merge_covers_union(dr_int_u64(e.x), dr_int_u64(o.x), mm, 0, pmax);
                assert(dr_int_u64(dr_u64_of(mm)) == mm);
                assert(m.x == dr_u64_of(mm));
            },
            _ => {
                assert(false);
            },
        }
    } else if mx && !my && mf && mt {
        match spec_try_merge(dr_int_u64(e.y), dr_int_u64(o.y)) {
            Ok(Some(mm)) => {
                lemma_merge_covers_union(dr_int_u64(e.y), dr_int_u64(o.y), mm, 0, pmax);
                assert(dr_int_u64(dr_u64_of(mm)) == mm);
                assert(m.y == dr_u64_of(mm));
            },
            _ => {
                assert(false);
            },
        }
    } else if mx && my && !mf && mt {
        match spec_try_merge(dr_int_i64(e.f), dr_int_i64(o.f)) {
            Ok(Some(mm)) => {
                lemma_merge_covers_union(dr_int_i64(e.f), dr_int_i64(o.f), mm, -(pmax + 1), pmax);
                assert(dr_int_i64(dr_i64_of(mm)) == mm);
                assert(m.f == dr_i64_of(mm));
            },
            _ => {
                assert(false);
            },
        }
    } else if mx && my && mf && !mt {
        match spec_try_merge(dr_int_u32(e.t), dr_int_u32(o.t)) {
            Ok(Some(mm)) => {
                lemma_time_merge_covers(e.t, o.t, mm, e.i, tn, td);
                assert(dr_int_u32(dr_u32_of(mm)) == mm);
                assert(m.t == dr_u32_of(mm));
            },
            _ => {
                assert(false);
            },
        }
    } else {
        assert(false);
    }
}

/// The first merge candidate lies in range and is a real candidate.
proof fn lemma_first_candidate_props(s: Seq<SpaceTimeId>, o: SpaceTimeId, j: int)
    requires
        0 <= j,
    ensures
        match spec_first_candidate(s, o, j) {
            Some((k, m)) => j <= k < s.len() && spec_merge_candidate(s[k], o) == Some(m),
            None => true,
        },
    decreases s.len() - j,
{
    if j < s.len() {
        match spec_merge_candidate(s[j], o) {
            Some(_) => {},
            None => {
                lemma_first_candidate_props(s, o, j + 1);
            },
        }
    }
}

/// Storing through the continuity merge preserves denotation exactly: the
/// collection after `spec_push` covers a point exactly when the old
/// collection covered it or the incoming identifier covers it.
pub proof fn lemma_push_covers(
    s: Seq<SpaceTimeId>,
    o: SpaceTimeId,
    px: int,
    py: int,
    pf: int,
    tn: int,
    td: int,
)
    requires
        forall|j: int| 0 <= j < s.len() ==> (#[trigger] s[j]).wf(),
        o.wf(),
        td >= 1,
    ensures
        seq_covers(spec_push(s, o), px, py, pf, tn, td) <==> (seq_covers(s, px, py, pf, tn, td)
            || covers_point(o, px, py, pf, tn, td)),
{
    lemma_first_candidate_props(s, o, 0);
    match spec_first_candidate(s, o, 0) {
        Option::None => {
            let v = spec_opt(o);
            lemma_opt_covers(o, px, py, pf, tn, td);
            let r = s.push(v);
            if seq_covers(r, px, py, pf, tn, td) {
                let j = choose|j: int|
                    0 <= j < r.len() && covers_point(#[trigger] r[j], px, py, pf, tn, td);
                if j < s.len() {
                    assert(covers_point(s[j], px, py, pf, tn, td));
                } else {
                    assert(r[j] == v);
                }
            }
            if seq_covers(s, px, py, pf, tn, td) {
                let j = choose|j: int|
                    0 <= j < s.len() && covers_point(#[trigger] s[j], px, py, pf, tn, td);
                assert(covers_point(r[j], px, py, pf, tn, td));
            }
            if covers_point(o, px, py, pf, tn, td) {
                assert(covers_point(r[s.len() as int], px, py, pf, tn, td));
            }
        },
        Option::Some((k, m)) => {
            lemma_merge_candidate_covers(s[k], o, m, px, py, pf, tn, td);
            lemma_opt_covers(m, px, py, pf, tn, td);
            let v = spec_opt(m);
            let r = s.update(k, v);
            if seq_covers(r, px, py, pf, tn, td) {
                let j = choose|j: int|
                    0 <= j < r.len() && covers_point(#[trigger] r[j], px, py, pf, tn, td);
                if j == k {
                    if covers_point(s[k], px, py, pf, tn, td) {
                        assert(covers_point(s[k], px, py, pf, tn, td));
                    }
                } else {
                    assert(covers_point(s[j], px, py, pf, tn, td));
                }
            }
            if seq_covers(s, px, py, pf, tn, td) {
                let j = choose|j: int|
                    0 <= j < s.len() && covers_point(#[trigger] s[j], px, py, pf, tn, td);
                if j == k {
                    assert(covers_point(r[k], px, py, pf, tn, td));
                } else {
                    assert(covers_point(r[j], px, py, pf, tn, td));
                }
            }
            if covers_point(o, px, py, pf, tn, td) {
                assert(covers_point(r[k], px, py, pf, tn, td));
            }
        },
    }
}

/// The three divisors behind time reduction: the common divisor of the slice
/// numbers and the count divides each of them, and after dividing all three
/// by it nothing above `1` divides all three.
proof fn lemma_optimal_i_divisors(n1: nat, n2: nat, i: nat)
    requires
        i >= 1,
    ensures
        gcd_s(gcd_s(n1, n2), i) >= 1,
        n1 % gcd_s(gcd_s(n1, n2), i) == 0,
        n2 % gcd_s(gcd_s(n1, n2), i) == 0,
        i % gcd_s(gcd_s(n1, n2), i) == 0,
        gcd_s(
            gcd_s(n1 / gcd_s(gcd_s(n1, n2), i), n2 / gcd_s(gcd_s(n1, n2), i)),
            i / gcd_s(gcd_s(n1, n2), i),
        ) == 1,
{
    let g0 = gcd_s(n1, n2);
    let d = gcd_s(g0, i);
    lemma_gcd_divides(n1, n2);
    lemma_gcd_divides(g0, i);
    if g0 == 0 {
        assert(n1 == 0 && n2 == 0);
    } else {
        lemma_divides_trans(n1, g0, d);
        lemma_divides_trans(n2, g0, d);
    }
    let q1 = n1 / d;
    let q2 = n2 / d;
    let qi = i / d;
    lemma_fundamental_div_mod(n1 as int, d as int);
    lemma_fundamental_div_mod(n2 as int, d as int);
    lemma_fundamental_div_mod(i as int, d as int);
    let c = gcd_s(gcd_s(q1, q2), qi);
    lemma_gcd_divides(q1, q2);
    lemma_gcd_divides(gcd_s(q1, q2), qi);
    assert(qi >= 1) by (nonlinear_arith)
        requires
            i as int == d as int * qi as int,
            i >= 1,
            d >= 1,
    ;
    assert(c >= 1);
    if c > 1 {
        if gcd_s(q1, q2) == 0 {
            assert(q1 == 0 && q2 == 0);
        } else {
            lemma_divides_trans(q1, gcd_s(q1, q2), c);
            lemma_divides_trans(q2, gcd_s(q1, q2), c);
        }
        lemma_fundamental_div_mod(q1 as int, c as int);
        lemma_fundamental_div_mod(q2 as int, c as int);
        lemma_fundamental_div_mod(qi as int, c as int);
        assert(c * d > 1 && c * d > d) by (nonlinear_arith)
            requires
                c > 1,
                d >= 1,
        ;
        assert(n1 % (c * d) == 0 && n2 % (c * d) == 0 && i % (c * d) == 0) by {
            assert(n1 as int == (q1 as int / c as int) * (c as int * d as int)
                && n2 as int == (q2 as int / c as int) * (c as int * d as int)
                && i as int == (qi as int / c as int) * (c as int * d as int))
                by (nonlinear_arith)
                requires
                    n1 as int == d as int * q1 as int,
                    n2 as int == d as int * q2 as int,
                    i as int == d as int * qi as int,
                    q1 as int == c as int * (q1 as int / c as int),
                    q2 as int == c as int * (q2 as int / c as int),
                    qi as int == c as int * (qi as int / c as int),
            ;
            vstd::arithmetic::div_mod::lemma_mod_multiples_basic(
                q1 as int / c as int,
                c as int * d as int,
            );
            vstd::arithmetic::div_mod::lemma_mod_multiples_basic(
                q2 as int / c as int,
                c as int * d as int,
            );
            vstd::arithmetic::div_mod::lemma_mod_multiples_basic(
                qi as int / c as int,
                c as int * d as int,
            );
        }
        lemma_gcd_greatest(n1, n2, c * d);
        lemma_gcd_greatest(g0, i, c * d);
        lemma_small_mod(d, c * d);
        assert(d < c * d) by (nonlinear_arith)
            requires
                c > 1,
                d >= 1,
        ;
        assert(false);
    }
}

} // verus!
