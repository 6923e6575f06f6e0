use space_time_id::id::{IdError, SpaceTimeId};
use space_time_id::range::DimensionRange as DR;
use space_time_id::range::MergeError;
use space_time_id::set::SpaceTimeIdSet;

#[test]
fn merge_two_points() {
    assert_eq!(
        SpaceTimeIdSet::to_continuous_xy(DR::Single(4), DR::Single(5)),
        Ok(Some(DR::LimitRange(4, 5)))
    );
    assert_eq!(
        SpaceTimeIdSet::to_continuous_xy(DR::Single(5), DR::Single(4)),
        Ok(Some(DR::LimitRange(4, 5)))
    );
    assert_eq!(SpaceTimeIdSet::to_continuous_xy(DR::Single(4), DR::Single(6)), Ok(None));
}

#[test]
fn merge_point_and_range() {
    assert_eq!(
        SpaceTimeIdSet::to_continuous_xy(DR::Single(5), DR::LimitRange(6, 9)),
        Ok(Some(DR::LimitRange(5, 9)))
    );
    assert_eq!(
        SpaceTimeIdSet::to_continuous_xy(DR::LimitRange(6, 9), DR::Single(10)),
        Ok(Some(DR::LimitRange(6, 10)))
    );
    assert_eq!(SpaceTimeIdSet::to_continuous_xy(DR::Single(4), DR::LimitRange(6, 9)), Ok(None));
}

#[test]
fn merge_ranges() {
    assert_eq!(
        SpaceTimeIdSet::to_continuous_xy(DR::LimitRange(0, 3), DR::LimitRange(4, 5)),
        Ok(Some(DR::LimitRange(0, 5)))
    );
    assert_eq!(
        SpaceTimeIdSet::to_continuous_xy(DR::LimitRange(4, 5), DR::LimitRange(0, 3)),
        Ok(Some(DR::LimitRange(0, 5)))
    );
    assert_eq!(
        SpaceTimeIdSet::to_continuous_xy(DR::LimitRange(0, 3), DR::LimitRange(5, 6)),
        Ok(None)
    );
}

#[test]
fn merge_against_open_ends() {
    assert_eq!(
        SpaceTimeIdSet::to_continuous_xy(DR::Single(3), DR::AfterUnLimitRange(4)),
        Ok(Some(DR::AfterUnLimitRange(3)))
    );
    assert_eq!(
        SpaceTimeIdSet::to_continuous_xy(DR::BeforeUnLimitRange(2), DR::Single(3)),
        Ok(Some(DR::BeforeUnLimitRange(3)))
    );
    assert_eq!(
        SpaceTimeIdSet::to_continuous_xy(DR::LimitRange(2, 4), DR::AfterUnLimitRange(5)),
        Ok(Some(DR::AfterUnLimitRange(2)))
    );
    assert_eq!(
        SpaceTimeIdSet::to_continuous_f(DR::BeforeUnLimitRange(3), DR::AfterUnLimitRange(4)),
        Ok(Some(DR::Any))
    );
    assert_eq!(
        SpaceTimeIdSet::to_continuous_f(DR::BeforeUnLimitRange(3), DR::AfterUnLimitRange(5)),
        Ok(None)
    );
}

#[test]
fn merge_ambiguous_overlap() {
    assert_eq!(
        SpaceTimeIdSet::to_continuous_xy(DR::Any, DR::Single(0)),
        Err(MergeError::AmbiguousOverlap)
    );
    assert_eq!(
        SpaceTimeIdSet::to_continuous_t(DR::LimitRange(0, 3), DR::Any),
        Err(MergeError::AmbiguousOverlap)
    );
    assert_eq!(
        SpaceTimeIdSet::to_continuous_xy(DR::AfterUnLimitRange(2), DR::AfterUnLimitRange(7)),
        Err(MergeError::AmbiguousOverlap)
    );
    assert_eq!(
        SpaceTimeIdSet::to_continuous_f(DR::BeforeUnLimitRange(2), DR::BeforeUnLimitRange(7)),
        Err(MergeError::AmbiguousOverlap)
    );
    assert_eq!(SpaceTimeIdSet::to_continuous_xy(DR::Any, DR::Any), Ok(None));
}

#[test]
fn negative_vertical_merge() {
    assert_eq!(
        SpaceTimeIdSet::to_continuous_f(DR::Single(-3), DR::Single(-2)),
        Ok(Some(DR::LimitRange(-3, -2)))
    );
    assert_eq!(
        SpaceTimeIdSet::to_continuous_f(DR::LimitRange(-8, -5), DR::LimitRange(-4, -1)),
        Ok(Some(DR::LimitRange(-8, -1)))
    );
}

#[test]
fn scale_planar_range_down() {
    assert_eq!(
        SpaceTimeIdSet::scale_range_for_z_u64(DR::LimitRange(4, 11), 2),
        DR::LimitRange(1, 2)
    );
    assert_eq!(
        SpaceTimeIdSet::scale_range_for_z_u64(DR::AfterUnLimitRange(6), 1),
        DR::AfterUnLimitRange(3)
    );
    assert_eq!(SpaceTimeIdSet::scale_range_for_z_u64(DR::Any, 3), DR::Any);
}

#[test]
fn scale_vertical_range_rounds_down() {
    assert_eq!(
        SpaceTimeIdSet::scale_range_for_z_i64(DR::LimitRange(-4, 3), 1),
        DR::LimitRange(-2, 1)
    );
    assert_eq!(
        SpaceTimeIdSet::scale_range_for_z_i64(DR::LimitRange(-3, -1), 1),
        DR::LimitRange(-2, -1)
    );
    assert_eq!(
        SpaceTimeIdSet::scale_range_for_z_i64(DR::BeforeUnLimitRange(-5), 2),
        DR::BeforeUnLimitRange(-2)
    );
}

#[test]
fn optimal_i_reduces_slices() {
    let id = SpaceTimeId { z: 0, f: DR::Any, x: DR::Any, y: DR::Any, i: 4, t: DR::LimitRange(2, 3) };
    let r = SpaceTimeIdSet::optimal_i(id);
    assert_eq!(r.i, 2);
    assert_eq!(r.t, DR::LimitRange(1, 1));
    assert_eq!((r.z, r.x, r.y, r.f), (id.z, id.x, id.y, id.f));
}

#[test]
fn optimal_i_full_epoch() {
    let id = SpaceTimeId { z: 0, f: DR::Any, x: DR::Any, y: DR::Any, i: 4, t: DR::LimitRange(0, 3) };
    let r = SpaceTimeIdSet::optimal_i(id);
    assert_eq!(r.i, 1);
    assert_eq!(r.t, DR::LimitRange(0, 0));
}

#[test]
fn optimal_i_leaves_irreducible() {
    let single =
        SpaceTimeId { z: 0, f: DR::Any, x: DR::Any, y: DR::Any, i: 4, t: DR::Single(2) };
    assert_eq!(SpaceTimeIdSet::optimal_i(single), single);
    let open =
        SpaceTimeId { z: 0, f: DR::Any, x: DR::Any, y: DR::Any, i: 4, t: DR::AfterUnLimitRange(1) };
    assert_eq!(SpaceTimeIdSet::optimal_i(open), open);
}

#[test]
fn optimal_z_coarsens_aligned_axes() {
    let id = SpaceTimeId {
        z: 2,
        f: DR::LimitRange(-4, 3),
        x: DR::LimitRange(0, 3),
        y: DR::LimitRange(0, 3),
        i: 1,
        t: DR::Any,
    };
    let r = SpaceTimeIdSet::optimal_z(id);
    assert_eq!(r.z, 0);
    assert_eq!(r.x, DR::LimitRange(0, 0));
    assert_eq!(r.y, DR::LimitRange(0, 0));
    assert_eq!(r.f, DR::LimitRange(-1, 0));
}

#[test]
fn optimal_z_stops_at_point() {
    let id = SpaceTimeId {
        z: 1,
        f: DR::Any,
        x: DR::Single(0),
        y: DR::LimitRange(0, 1),
        i: 1,
        t: DR::Any,
    };
    assert_eq!(SpaceTimeIdSet::optimal_z(id), id);
}

#[test]
fn optimal_z_stops_when_unaligned() {
    let id = SpaceTimeId {
        z: 2,
        f: DR::Any,
        x: DR::LimitRange(1, 2),
        y: DR::Any,
        i: 1,
        t: DR::Any,
    };
    assert_eq!(SpaceTimeIdSet::optimal_z(id), id);
}

#[test]
fn id_validation() {
    assert!(SpaceTimeId::new(2, DR::Single(0), DR::Single(3), DR::Single(0), 1, DR::Any).is_ok());
    assert_eq!(
        SpaceTimeId::new(63, DR::Any, DR::Any, DR::Any, 1, DR::Any),
        Err(IdError::ZoomTooLarge)
    );
    assert_eq!(
        SpaceTimeId::new(2, DR::Any, DR::Any, DR::Any, 0, DR::Any),
        Err(IdError::ZeroTimeUnits)
    );
    assert_eq!(
        SpaceTimeId::new(2, DR::Any, DR::Single(4), DR::Any, 1, DR::Any),
        Err(IdError::XOutOfBounds)
    );
    assert_eq!(
        SpaceTimeId::new(2, DR::Any, DR::Any, DR::LimitRange(3, 1), 1, DR::Any),
        Err(IdError::YOutOfBounds)
    );
    assert_eq!(
        SpaceTimeId::new(2, DR::Single(-5), DR::Any, DR::Any, 1, DR::Any),
        Err(IdError::VerticalOutOfBounds)
    );
    assert_eq!(
        SpaceTimeId::new(2, DR::Any, DR::Any, DR::Any, 4, DR::Single(4)),
        Err(IdError::TimeOutOfBounds)
    );
}
